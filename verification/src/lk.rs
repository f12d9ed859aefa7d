//! Pyramidal Lucas-Kanade tracking.
use vstd::arithmetic::power2::{lemma2_to64, lemma2_to64_rest, lemma_pow2_unfold, pow2};
use vstd::prelude::*;

use crate::binary32::{
    lemma_difference_bounded, lemma_of_int_bounded, lemma_of_int_exact, lemma_of_int_number,
    lemma_product_zero, lemma_quotient_zero, lemma_rank_orders_values, lemma_signed,
    lemma_sum_bounded, lemma_sum_with_zero, lemma_sum_zero, magnitude, of_int, of_power, Binary32,
};
use crate::feature::{is_unmoved, Feature};
use crate::flat::{lemma_packed_grid, FlatSamples};
use crate::grid::{lemma_index, lemma_next_row, lemma_place, lemma_tap_exact, Grid};
use crate::pyramid::{
    grids, halved_length, lemma_level_count_again, lemma_level_dimensions, level_count,
    level_dimensions, pyramid, pyramid_dims, PyramidBuffer,
};
use crate::raster::{
    gray, gray_dimensions, gray_flat_samples, gray_get, gray_get_checked, gray_size, plane,
    plane_dimensions, plane_get, plane_get_checked, plane_size, uniform, GradPlane, GrayImage,
};
use crate::rounding::lemma_units_nonnegative;
use crate::utils::fast_gradients::{
    compute_gradients_into, gradient_x, gradient_y, lemma_uniform_gradients,
};

verus! {

/// A step of less than this many pixels in both directions ends the
/// refinement: 0.001.
pub const STEP_EPSILON: u32 = 0x3a83_126f;

/// A matrix with a determinant of no more than this has no inverse: 0.000001.
pub const DET_EPSILON: u32 = 0x3586_37bd;

pub open spec fn zero() -> Binary32 {
    Binary32 { bits: 0 }
}

/// The number of a sample; zero where there is none.
pub open spec fn number_of_gray(sample: Option<u8>) -> Binary32 {
    match sample {
        Some(v) => of_int(v as int),
        None => zero(),
    }
}

/// The number of a gradient; zero where there is none.
pub open spec fn number_of_gradient(sample: Option<i16>) -> Binary32 {
    match sample {
        Some(v) => of_int(v as int),
        None => zero(),
    }
}

/// The numbers of an image's samples, zero outside.
pub open spec fn gray_numbers(g: Grid<u8>) -> spec_fn(int, int) -> Binary32 {
    |x: int, y: int| number_of_gray(g.tap(x, y))
}

/// The numbers of a plane's gradients, zero outside.
pub open spec fn gradient_numbers(g: Grid<i16>) -> spec_fn(int, int) -> Binary32 {
    |x: int, y: int| number_of_gradient(g.tap(x, y))
}

/// Samples that can be interpolated.
pub trait Samples {
    /// Numbers of the samples, zero where there is none.
    spec fn numbers(&self) -> spec_fn(int, int) -> Binary32;

    /// Width and height.
    spec fn size(&self) -> (u32, u32);

    fn sample_size(&self) -> (r: (u32, u32))
        ensures
            r == self.size(),
    ;

    /// The number of a sample inside.
    fn number_inside(&self, x: u32, y: u32) -> (v: Binary32)
        requires
            x < self.size().0,
            y < self.size().1,
        ensures
            v == self.numbers()(x as int, y as int),
    ;

    /// The number of a sample, zero where there is none.
    fn number_checked(&self, x: u32, y: u32) -> (v: Binary32)
        ensures
            v == self.numbers()(x as int, y as int),
    ;

    /// There are no samples at negative coordinates.
    proof fn lemma_none_before(&self, x: int, y: int)
        requires
            x < 0 || y < 0,
        ensures
            self.numbers()(x, y) == zero(),
    ;
}

impl Samples for GrayImage {
    open spec fn numbers(&self) -> spec_fn(int, int) -> Binary32 {
        gray_numbers(gray(*self))
    }

    open spec fn size(&self) -> (u32, u32) {
        gray_size(*self)
    }

    fn sample_size(&self) -> (r: (u32, u32)) {
        gray_dimensions(self)
    }

    fn number_inside(&self, x: u32, y: u32) -> (v: Binary32) {
        let (w, h) = gray_dimensions(self);
        proof {
            lemma_index(w as int, h as int, x as int, y as int);
        }
        Binary32::from_int(gray_get(self, x, y) as i64)
    }

    fn number_checked(&self, x: u32, y: u32) -> (v: Binary32) {
        match gray_get_checked(self, x, y) {
            Some(p) => Binary32::from_int(p as i64),
            None => Binary32::from_bits(0),
        }
    }

    proof fn lemma_none_before(&self, x: int, y: int) {
    }
}

impl Samples for GradPlane {
    open spec fn numbers(&self) -> spec_fn(int, int) -> Binary32 {
        gradient_numbers(plane(*self))
    }

    open spec fn size(&self) -> (u32, u32) {
        plane_size(*self)
    }

    fn sample_size(&self) -> (r: (u32, u32)) {
        plane_dimensions(self)
    }

    fn number_inside(&self, x: u32, y: u32) -> (v: Binary32) {
        let (w, h) = plane_dimensions(self);
        proof {
            lemma_index(w as int, h as int, x as int, y as int);
        }
        Binary32::from_int(plane_get(self, x, y) as i64)
    }

    fn number_checked(&self, x: u32, y: u32) -> (v: Binary32) {
        match plane_get_checked(self, x, y) {
            Some(p) => Binary32::from_int(p as i64),
            None => Binary32::from_bits(0),
        }
    }

    proof fn lemma_none_before(&self, x: int, y: int) {
    }
}

/// The integer below a coordinate.
pub open spec fn whole(x: Binary32) -> int {
    x.floor_within(i32::MIN as int, i32::MAX as int)
}

/// Bilinear interpolation of samples.
#[verifier::opaque]
pub open spec fn bilinear(
    numbers: spec_fn(int, int) -> Binary32,
    x: Binary32,
    y: Binary32,
) -> Binary32 {
    let x0 = whole(x);
    let y0 = whole(y);
    let dx = x.difference(of_int(x0));
    let dy = y.difference(of_int(y0));
    let dx1 = of_int(1).difference(dx);
    let dy1 = of_int(1).difference(dy);
    zero().sum(numbers(x0, y0).product(dx1).product(dy1)).sum(
        numbers(x0, y0 + 1).product(dx1).product(dy),
    ).sum(numbers(x0 + 1, y0).product(dx).product(dy1)).sum(
        numbers(x0 + 1, y0 + 1).product(dx).product(dy),
    )
}

/// The number of a sample at any integer coordinates.
fn number_at<S: Samples>(img: &S, x: i64, y: i64) -> (v: Binary32)
    requires
        i32::MIN <= x <= i32::MAX + 1,
        i32::MIN <= y <= i32::MAX + 1,
    ensures
        v == img.numbers()(x as int, y as int),
{
    if x < 0 || y < 0 {
        proof {
            img.lemma_none_before(x as int, y as int);
        }
        Binary32::from_bits(0)
    } else {
        img.number_checked(x as u32, y as u32)
    }
}

/// Bilinear interpolation of the pixel value.
///
/// Where the 2 by 2 cell is fully in bounds a single range check covers all
/// four taps. Otherwise each tap is checked, and one that is out of bounds
/// counts as zero. Both paths add up the taps in the same order.
pub fn interpolate<S: Samples>(img: &S, x: Binary32, y: Binary32) -> (v: Binary32)
    ensures
        v == bilinear(img.numbers(), x, y),
{
    proof {
        reveal(bilinear);
    }
    let x0: i32 = x.floor_to_i32();
    let y0: i32 = y.floor_to_i32();
    let x1: i64 = x0 as i64 + 1;
    let y1: i64 = y0 as i64 + 1;
    let dx: Binary32 = x.minus(Binary32::from_int(x0 as i64));
    let dy: Binary32 = y.minus(Binary32::from_int(y0 as i64));
    let one: Binary32 = Binary32::from_int(1);
    let dx1: Binary32 = one.minus(dx);
    let dy1: Binary32 = one.minus(dy);
    let (width, height) = img.sample_size();
    let p00: Binary32;
    let p01: Binary32;
    let p10: Binary32;
    let p11: Binary32;
    if x0 >= 0 && y0 >= 0 && x1 < width as i64 && y1 < height as i64 {
        p00 = img.number_inside(x0 as u32, y0 as u32);
        p01 = img.number_inside(x0 as u32, y1 as u32);
        p10 = img.number_inside(x1 as u32, y0 as u32);
        p11 = img.number_inside(x1 as u32, y1 as u32);
    } else {
        p00 = number_at(img, x0 as i64, y0 as i64);
        p01 = number_at(img, x0 as i64, y1);
        p10 = number_at(img, x1, y0 as i64);
        p11 = number_at(img, x1, y1);
    }
    Binary32::from_bits(0).plus(p00.times(dx1).times(dy1)).plus(p01.times(dx1).times(dy)).plus(
        p10.times(dx).times(dy1),
    ).plus(p11.times(dx).times(dy))
}

/// The components of the inverse of a symmetric 2 by 2 matrix, if its
/// determinant is large enough.
pub open spec fn inverse_2x2(
    a00: Binary32,
    a01: Binary32,
    a11: Binary32,
    det_epsilon: Binary32,
) -> Option<(Binary32, Binary32, Binary32)> {
    let det = a00.product(a11).difference(a01.product(a01));
    if det.absolute().is_at_most(det_epsilon) {
        None
    } else {
        let inv_det = of_int(1).quotient(det);
        Some((a11.product(inv_det), a01.negated().product(inv_det), a00.product(inv_det)))
    }
}

/// Invert a symmetric 2 by 2 matrix.
pub fn invert_2x2(a00: Binary32, a01: Binary32, a11: Binary32, det_epsilon: Binary32) -> (r: Option<
    (Binary32, Binary32, Binary32),
>)
    ensures
        r == inverse_2x2(a00, a01, a11, det_epsilon),
{
    let det: Binary32 = a00.times(a11).minus(a01.times(a01));
    if det.abs().le(det_epsilon) {
        return None;
    }
    let inv_det: Binary32 = Binary32::from_int(1).over(det);
    Some((a11.times(inv_det), a01.negate().times(inv_det), a00.times(inv_det)))
}

/// A window about a position stays within a length.
pub open spec fn is_within(c: Binary32, length: int, radius: int) -> bool {
    of_int(radius).is_at_most(c) && c.is_less(of_int(length).difference(of_int(radius)))
}

/// A window about a position stays within an image.
pub open spec fn is_in_bounds(g: Grid<u8>, x: Binary32, y: Binary32, radius: int) -> bool {
    is_within(x, g.width, radius) && is_within(y, g.height, radius)
}

/// Checks that the window stays within image bounds.
pub fn in_bounds(img: &GrayImage, x: Binary32, y: Binary32, radius: usize) -> (r: bool)
    requires
        radius < 0x4000_0000_0000_0000,
    ensures
        r == is_in_bounds(gray(*img), x, y, radius as int),
{
    let (w, h) = gray_dimensions(img);
    let edge: Binary32 = Binary32::from_int(radius as i64);
    edge.le(x) && x.lt(Binary32::from_int(w as i64).minus(edge)) && edge.le(y) && y.lt(
        Binary32::from_int(h as i64).minus(edge),
    )
}

/// Number of pixels of a window.
pub open spec fn window_area(radius: int) -> int {
    (2 * radius + 1) * (2 * radius + 1)
}

/// Offsets of the pixels of a window from its centre, row by row.
pub open spec fn window_offsets(radius: int) -> Seq<(Binary32, Binary32)> {
    Seq::new(
        window_area(radius) as nat,
        |k: int|
            (
                of_int(k % (2 * radius + 1) - radius),
                of_int(k / (2 * radius + 1) - radius),
            ),
    )
}

/// The offsets of the pixels of a window, row by row.
pub fn build_window_offsets(radius: usize) -> (offsets: Vec<(Binary32, Binary32)>)
    requires
        radius < 0x8000_0000,
        window_area(radius as int) <= usize::MAX,
    ensures
        offsets@ == window_offsets(radius as int),
{
    let mut offsets: Vec<(Binary32, Binary32)> = Vec::new();
    let r: i64 = radius as i64;
    let ghost side = 2 * radius + 1;
    let ghost all = window_offsets(radius as int);
    let mut j: i64 = -r;
    proof {
        assert(0int * side == 0) by (nonlinear_arith);
    }
    while j <= r
        invariant
            r == radius,
            radius < 0x8000_0000,
            side == 2 * radius + 1,
            all == window_offsets(radius as int),
            -r <= j <= r + 1,
            offsets@.len() == (j + r) * side,
            forall|k: int| 0 <= k < offsets@.len() ==> #[trigger] offsets@[k] == all[k],
        decreases r + 1 - j,
    {
        let mut i: i64 = -r;
        while i <= r
            invariant
                r == radius,
                radius < 0x8000_0000,
                side == 2 * radius + 1,
                all == window_offsets(radius as int),
                -r <= j <= r,
                -r <= i <= r + 1,
                offsets@.len() == (j + r) * side + (i + r),
                forall|k: int| 0 <= k < offsets@.len() ==> #[trigger] offsets@[k] == all[k],
            decreases r + 1 - i,
        {
            proof {
                lemma_index(side, side, i + r, j + r);
            }
            offsets.push((Binary32::from_int(i), Binary32::from_int(j)));
            i = i + 1;
        }
        proof {
            lemma_next_row(side, j + r);
        }
        j = j + 1;
    }
    assert(offsets@ =~= all);
    offsets
}

/// Value and scaled derivatives of an image at one pixel of a window.
pub struct Patch {
    pub value: Binary32,
    pub ix: Binary32,
    pub iy: Binary32,
}

/// An image with planes for its derivatives.
pub struct Source {
    pub image: Grid<u8>,
    pub grad_x: Grid<i16>,
    pub grad_y: Grid<i16>,
}

/// An image with its own gradients.
pub open spec fn source_of(image: Grid<u8>) -> Source {
    Source {
        image,
        grad_x: gradient_x(image.trimmed()),
        grad_y: gradient_y(image.trimmed()),
    }
}

/// What is sampled at pixel `k` of the window about `(x, y)`.
pub open spec fn patch(prev: Source, x: Binary32, y: Binary32, radius: int, k: int) -> Patch {
    let offset = window_offsets(radius)[k];
    let sx = x.sum(offset.0);
    let sy = y.sum(offset.1);
    Patch {
        value: bilinear(gray_numbers(prev.image), sx, sy),
        ix: bilinear(gradient_numbers(prev.grad_x), sx, sy).quotient(of_int(32)),
        iy: bilinear(gradient_numbers(prev.grad_y), sx, sy).quotient(of_int(32)),
    }
}

/// Sums of the products of the derivatives at the first `n` pixels of a window.
pub open spec fn hessian(prev: Source, x: Binary32, y: Binary32, radius: int, n: int) -> (
    Binary32,
    Binary32,
    Binary32,
)
    decreases n,
{
    if n <= 0 {
        (zero(), zero(), zero())
    } else {
        let before = hessian(prev, x, y, radius, n - 1);
        let p = patch(prev, x, y, radius, n - 1);
        (
            before.0.sum(p.ix.product(p.ix)),
            before.1.sum(p.ix.product(p.iy)),
            before.2.sum(p.iy.product(p.iy)),
        )
    }
}

/// Sums of the products of derivative and image difference at the first `n`
/// pixels of a window that was moved to `(cx, cy)`.
pub open spec fn mismatch(
    prev: Source,
    curr: Grid<u8>,
    x: Binary32,
    y: Binary32,
    cx: Binary32,
    cy: Binary32,
    radius: int,
    n: int,
) -> (Binary32, Binary32)
    decreases n,
{
    if n <= 0 {
        (zero(), zero())
    } else {
        let before = mismatch(prev, curr, x, y, cx, cy, radius, n - 1);
        let p = patch(prev, x, y, radius, n - 1);
        let offset = window_offsets(radius)[n - 1];
        let error = p.value.difference(
            bilinear(gray_numbers(curr), cx.sum(offset.0), cy.sum(offset.1)),
        );
        (before.0.sum(p.ix.product(error)), before.1.sum(p.iy.product(error)))
    }
}

/// The displacement after up to `iterations` steps of refinement.
pub open spec fn refined(
    prev: Source,
    curr: Grid<u8>,
    x: Binary32,
    y: Binary32,
    radius: int,
    inverse: (Binary32, Binary32, Binary32),
    d: (Binary32, Binary32),
    iterations: int,
) -> (Binary32, Binary32)
    decreases iterations,
{
    let cx = x.sum(d.0);
    let cy = y.sum(d.1);
    if iterations <= 0 || !is_in_bounds(curr, cx, cy, radius) {
        d
    } else {
        let b = mismatch(prev, curr, x, y, cx, cy, radius, window_area(radius));
        let ddx = inverse.0.product(b.0).sum(inverse.1.product(b.1));
        let ddy = inverse.1.product(b.0).sum(inverse.2.product(b.1));
        let moved = (d.0.sum(ddx), d.1.sum(ddy));
        let epsilon = Binary32 { bits: STEP_EPSILON };
        if ddx.absolute().is_less(epsilon) && ddy.absolute().is_less(epsilon) {
            moved
        } else {
            refined(prev, curr, x, y, radius, inverse, moved, iterations - 1)
        }
    }
}

/// The displacement of a feature after one pyramid level, at full resolution;
/// none where the level is skipped because the window leaves the previous
/// image or holds too little texture.
pub open spec fn level_flow(
    prev: Source,
    curr: Grid<u8>,
    scale: Binary32,
    radius: int,
    iterations: int,
    position: (Binary32, Binary32),
    d: (Binary32, Binary32),
) -> Option<(Binary32, Binary32)> {
    let x = position.0.quotient(scale);
    let y = position.1.quotient(scale);
    if !is_in_bounds(prev.image, x, y, radius) {
        None
    } else {
        let h = hessian(prev, x, y, radius, window_area(radius));
        match inverse_2x2(h.0, h.1, h.2, Binary32 { bits: DET_EPSILON }) {
            None => None,
            Some(inverse) => {
                let start = (d.0.quotient(scale), d.1.quotient(scale));
                let end = refined(prev, curr, x, y, radius, inverse, start, iterations);
                Some((end.0.product(scale), end.1.product(scale)))
            },
        }
    }
}

/// An image with planes for its derivatives.
pub open spec fn source(img: GrayImage, grad_x: GradPlane, grad_y: GradPlane) -> Source {
    Source { image: gray(img), grad_x: plane(grad_x), grad_y: plane(grad_y) }
}

/// Sample the window about `(x, y)` of the previous image and add up its
/// matrix.
fn sample_window(
    prev_img: &GrayImage,
    grad_x: &GradPlane,
    grad_y: &GradPlane,
    x: Binary32,
    y: Binary32,
    radius: usize,
    offsets: &Vec<(Binary32, Binary32)>,
    prev_patch: &mut Vec<Binary32>,
    ix_patch: &mut Vec<Binary32>,
    iy_patch: &mut Vec<Binary32>,
) -> (h: (Binary32, Binary32, Binary32))
    requires
        offsets@ == window_offsets(radius as int),
        old(prev_patch)@.len() == offsets@.len(),
        old(ix_patch)@.len() == offsets@.len(),
        old(iy_patch)@.len() == offsets@.len(),
    ensures
        h == hessian(
            source(*prev_img, *grad_x, *grad_y),
            x,
            y,
            radius as int,
            window_area(radius as int),
        ),
        final(prev_patch)@.len() == offsets@.len(),
        final(ix_patch)@.len() == offsets@.len(),
        final(iy_patch)@.len() == offsets@.len(),
        holds_patches(
            final(prev_patch)@,
            final(ix_patch)@,
            final(iy_patch)@,
            source(*prev_img, *grad_x, *grad_y),
            x,
            y,
            radius as int,
            offsets@.len() as int,
        ),
{
    let ghost prev = source(*prev_img, *grad_x, *grad_y);
    let ghost r = radius as int;
    let mut gxx: Binary32 = Binary32::from_bits(0);
    let mut gxy: Binary32 = Binary32::from_bits(0);
    let mut gyy: Binary32 = Binary32::from_bits(0);
    let mut idx: usize = 0;
    while idx < offsets.len()
        invariant
            prev == source(*prev_img, *grad_x, *grad_y),
            r == radius,
            offsets@ == window_offsets(r),
            idx <= offsets@.len(),
            prev_patch@.len() == offsets@.len(),
            ix_patch@.len() == offsets@.len(),
            iy_patch@.len() == offsets@.len(),
            (gxx, gxy, gyy) == hessian(prev, x, y, r, idx as int),
            holds_patches(prev_patch@, ix_patch@, iy_patch@, prev, x, y, r, idx as int),
        decreases offsets@.len() - idx,
    {
        let (ox, oy) = offsets[idx];
        let sample_x: Binary32 = x.plus(ox);
        let sample_y: Binary32 = y.plus(oy);
        let ix: Binary32 = interpolate(grad_x, sample_x, sample_y).over(Binary32::from_int(32));
        let iy: Binary32 = interpolate(grad_y, sample_x, sample_y).over(Binary32::from_int(32));
        let value: Binary32 = interpolate(prev_img, sample_x, sample_y);
        assert(patch(prev, x, y, r, idx as int) == (Patch { value, ix, iy }));
        prev_patch[idx] = value;
        ix_patch[idx] = ix;
        iy_patch[idx] = iy;
        gxx = gxx.plus(ix.times(ix));
        gxy = gxy.plus(ix.times(iy));
        gyy = gyy.plus(iy.times(iy));
        idx = idx + 1;
    }
    assert(window_area(r) >= 0) by (nonlinear_arith)
        requires
            r >= 0,
            window_area(r) == (2 * r + 1) * (2 * r + 1),
    ;
    (gxx, gxy, gyy)
}

/// The buffers hold the first `n` pixels of a window.
pub open spec fn holds_patches(
    values: Seq<Binary32>,
    ix: Seq<Binary32>,
    iy: Seq<Binary32>,
    prev: Source,
    x: Binary32,
    y: Binary32,
    radius: int,
    n: int,
) -> bool {
    forall|k: int|
        #![trigger patch(prev, x, y, radius, k)]
        #![trigger values[k]]
        0 <= k < n ==> patch(prev, x, y, radius, k) == (Patch {
            value: values[k],
            ix: ix[k],
            iy: iy[k],
        })
}

/// Add up the mismatch of a window that was moved to `(cx, cy)`.
fn window_mismatch(
    curr_img: &GrayImage,
    cx: Binary32,
    cy: Binary32,
    radius: usize,
    offsets: &Vec<(Binary32, Binary32)>,
    prev_patch: &Vec<Binary32>,
    ix_patch: &Vec<Binary32>,
    iy_patch: &Vec<Binary32>,
    Ghost(prev): Ghost<Source>,
    Ghost(x): Ghost<Binary32>,
    Ghost(y): Ghost<Binary32>,
) -> (b: (Binary32, Binary32))
    requires
        offsets@ == window_offsets(radius as int),
        prev_patch@.len() == offsets@.len(),
        ix_patch@.len() == offsets@.len(),
        iy_patch@.len() == offsets@.len(),
        holds_patches(
            prev_patch@,
            ix_patch@,
            iy_patch@,
            prev,
            x,
            y,
            radius as int,
            offsets@.len() as int,
        ),
    ensures
        b == mismatch(
            prev,
            gray(*curr_img),
            x,
            y,
            cx,
            cy,
            radius as int,
            window_area(radius as int),
        ),
{
    let ghost curr = gray(*curr_img);
    let ghost r = radius as int;
    let mut bx: Binary32 = Binary32::from_bits(0);
    let mut by: Binary32 = Binary32::from_bits(0);
    let mut idx: usize = 0;
    while idx < offsets.len()
        invariant
            curr == gray(*curr_img),
            r == radius,
            offsets@ == window_offsets(r),
            idx <= offsets@.len(),
            prev_patch@.len() == offsets@.len(),
            ix_patch@.len() == offsets@.len(),
            iy_patch@.len() == offsets@.len(),
            holds_patches(
                prev_patch@,
                ix_patch@,
                iy_patch@,
                prev,
                x,
                y,
                r,
                offsets@.len() as int,
            ),
            (bx, by) == mismatch(prev, curr, x, y, cx, cy, r, idx as int),
        decreases offsets@.len() - idx,
    {
        let (ox, oy) = offsets[idx];
        let sampled: Binary32 = interpolate(curr_img, cx.plus(ox), cy.plus(oy));
        let error: Binary32 = prev_patch[idx].minus(sampled);
        bx = bx.plus(ix_patch[idx].times(error));
        by = by.plus(iy_patch[idx].times(error));
        idx = idx + 1;
    }
    assert(window_area(r) >= 0) by (nonlinear_arith)
        requires
            r >= 0,
            window_area(r) == (2 * r + 1) * (2 * r + 1),
    ;
    (bx, by)
}

/// Track one feature through one pyramid level.
fn track_feature(
    prev_img: &GrayImage,
    curr_img: &GrayImage,
    grad_x: &GradPlane,
    grad_y: &GradPlane,
    scale: Binary32,
    radius: usize,
    max_iterations: usize,
    position: (Binary32, Binary32),
    disp: (Binary32, Binary32),
    offsets: &Vec<(Binary32, Binary32)>,
    prev_patch: &mut Vec<Binary32>,
    ix_patch: &mut Vec<Binary32>,
    iy_patch: &mut Vec<Binary32>,
) -> (r: Option<(Binary32, Binary32)>)
    requires
        radius <= u32::MAX,
        offsets@ == window_offsets(radius as int),
        old(prev_patch)@.len() == offsets@.len(),
        old(ix_patch)@.len() == offsets@.len(),
        old(iy_patch)@.len() == offsets@.len(),
    ensures
        r == level_flow(
            source(*prev_img, *grad_x, *grad_y),
            gray(*curr_img),
            scale,
            radius as int,
            max_iterations as int,
            position,
            disp,
        ),
        final(prev_patch)@.len() == offsets@.len(),
        final(ix_patch)@.len() == offsets@.len(),
        final(iy_patch)@.len() == offsets@.len(),
{
    let x: Binary32 = position.0.over(scale);
    let y: Binary32 = position.1.over(scale);
    let mut dx: Binary32 = disp.0.over(scale);
    let mut dy: Binary32 = disp.1.over(scale);
    if !in_bounds(prev_img, x, y, radius) {
        return None;
    }
    let (gxx, gxy, gyy) = sample_window(
        prev_img,
        grad_x,
        grad_y,
        x,
        y,
        radius,
        offsets,
        prev_patch,
        ix_patch,
        iy_patch,
    );
    let inverse: (Binary32, Binary32, Binary32) = match invert_2x2(
        gxx,
        gxy,
        gyy,
        Binary32::from_bits(DET_EPSILON),
    ) {
        Some(inverse) => inverse,
        None => {
            return None;
        },
    };
    let epsilon: Binary32 = Binary32::from_bits(STEP_EPSILON);
    let ghost prev = source(*prev_img, *grad_x, *grad_y);
    let ghost curr = gray(*curr_img);
    let ghost rad = radius as int;
    let ghost end = refined(prev, curr, x, y, rad, inverse, (dx, dy), max_iterations as int);
    let mut left: usize = max_iterations;
    while left > 0
        invariant_except_break
            end == refined(prev, curr, x, y, rad, inverse, (dx, dy), left as int),
        invariant
            prev == source(*prev_img, *grad_x, *grad_y),
            curr == gray(*curr_img),
            rad == radius,
            radius <= u32::MAX,
            epsilon == (Binary32 { bits: STEP_EPSILON }),
            offsets@ == window_offsets(rad),
            prev_patch@.len() == offsets@.len(),
            ix_patch@.len() == offsets@.len(),
            iy_patch@.len() == offsets@.len(),
            holds_patches(
                prev_patch@,
                ix_patch@,
                iy_patch@,
                prev,
                x,
                y,
                rad,
                offsets@.len() as int,
            ),
        ensures
            end == (dx, dy),
        decreases left,
    {
        let curr_x: Binary32 = x.plus(dx);
        let curr_y: Binary32 = y.plus(dy);
        if !in_bounds(curr_img, curr_x, curr_y, radius) {
            break;
        }
        let (bx, by) = window_mismatch(
            curr_img,
            curr_x,
            curr_y,
            radius,
            offsets,
            prev_patch,
            ix_patch,
            iy_patch,
            Ghost(prev),
            Ghost(x),
            Ghost(y),
        );
        let ddx: Binary32 = inverse.0.times(bx).plus(inverse.1.times(by));
        let ddy: Binary32 = inverse.1.times(bx).plus(inverse.2.times(by));
        dx = dx.plus(ddx);
        dy = dy.plus(ddy);
        if ddx.abs().lt(epsilon) && ddy.abs().lt(epsilon) {
            break;
        }
        left = left - 1;
    }
    Some((dx.times(scale), dy.times(scale)))
}

/// The displacement of a feature after all levels from the coarsest down to
/// `level`.
pub open spec fn displacement(
    prev: Seq<Grid<u8>>,
    curr: Seq<Grid<u8>>,
    radius: int,
    iterations: int,
    position: (Binary32, Binary32),
    level: int,
) -> (Binary32, Binary32)
    decreases prev.len() - level,
{
    if level >= prev.len() {
        (zero(), zero())
    } else {
        let before = displacement(prev, curr, radius, iterations, position, level + 1);
        match level_flow(
            source_of(prev[level]),
            curr[level],
            of_power(level as nat),
            radius,
            iterations,
            position,
            before,
        ) {
            Some(d) => d,
            None => before,
        }
    }
}

/// A feature is not skipped at the coarsest level.
pub open spec fn has_flow(
    prev: Seq<Grid<u8>>,
    curr: Seq<Grid<u8>>,
    radius: int,
    iterations: int,
    position: (Binary32, Binary32),
) -> bool {
    let coarsest = prev.len() - 1;
    level_flow(
        source_of(prev[coarsest]),
        curr[coarsest],
        of_power(coarsest as nat),
        radius,
        iterations,
        position,
        (zero(), zero()),
    ) is Some
}

/// Where a position is in the current image. What is skipped at the coarsest
/// level has the displacement `(0, 0)`.
pub open spec fn flow_point(
    prev: Seq<Grid<u8>>,
    curr: Seq<Grid<u8>>,
    radius: int,
    iterations: int,
    position: (Binary32, Binary32),
) -> (Binary32, Binary32) {
    let d = if has_flow(prev, curr, radius, iterations, position) {
        displacement(prev, curr, radius, iterations, position, 0)
    } else {
        (zero(), zero())
    };
    (position.0.sum(d.0), position.1.sum(d.1))
}

/// A feature with its position in the current image.
pub open spec fn moved(
    prev: Seq<Grid<u8>>,
    curr: Seq<Grid<u8>>,
    radius: int,
    iterations: int,
    f: Feature,
) -> Feature {
    let to = flow_point(prev, curr, radius, iterations, (f.x, f.y));
    Feature { x: to.0, y: to.1, strength: f.strength }
}

/// Features with their positions in the current image.
pub open spec fn moved_all(
    prev: Seq<Grid<u8>>,
    curr: Seq<Grid<u8>>,
    radius: int,
    iterations: int,
    features: Seq<Feature>,
) -> Seq<Feature> {
    Seq::new(features.len(), |i: int| moved(prev, curr, radius, iterations, features[i]))
}

/// Which features are not skipped at the coarsest level.
pub open spec fn flow_status(
    prev: Seq<Grid<u8>>,
    curr: Seq<Grid<u8>>,
    radius: int,
    iterations: int,
    features: Seq<Feature>,
) -> Seq<bool> {
    Seq::new(
        features.len(),
        |i: int| has_flow(prev, curr, radius, iterations, (features[i].x, features[i].y)),
    )
}

/// The displacements of features after the levels down to `level`.
pub open spec fn displacements_at(
    prev: Seq<Grid<u8>>,
    curr: Seq<Grid<u8>>,
    radius: int,
    iterations: int,
    features: Seq<Feature>,
    level: int,
) -> Seq<(Binary32, Binary32)> {
    Seq::new(
        features.len(),
        |i: int|
            displacement(
                prev,
                curr,
                radius,
                iterations,
                (features[i].x, features[i].y),
                level,
            ),
    )
}

/// Tracking keeps the features, their order and their strengths.
pub proof fn lemma_tracked_features(
    prev: Seq<Grid<u8>>,
    curr: Seq<Grid<u8>>,
    radius: int,
    iterations: int,
    features: Seq<Feature>,
)
    ensures
        moved_all(prev, curr, radius, iterations, features).len() == features.len(),
        flow_status(prev, curr, radius, iterations, features).len() == features.len(),
        forall|i: int|
            0 <= i < features.len() ==> (#[trigger] moved_all(
                prev,
                curr,
                radius,
                iterations,
                features,
            )[i]).strength == features[i].strength,
{
}

/// A feature is tracked as if it were the only one.
pub proof fn lemma_tracked_alone(
    prev: Seq<Grid<u8>>,
    curr: Seq<Grid<u8>>,
    radius: int,
    iterations: int,
    features: Seq<Feature>,
    i: int,
)
    requires
        0 <= i < features.len(),
    ensures
        moved_all(prev, curr, radius, iterations, seq![features[i]]) == seq![
            moved_all(prev, curr, radius, iterations, features)[i],
        ],
        flow_status(prev, curr, radius, iterations, seq![features[i]]) == seq![
            flow_status(prev, curr, radius, iterations, features)[i],
        ],
{
    assert(moved_all(prev, curr, radius, iterations, seq![features[i]]) =~= seq![
        moved_all(prev, curr, radius, iterations, features)[i],
    ]);
    assert(flow_status(prev, curr, radius, iterations, seq![features[i]]) =~= seq![
        flow_status(prev, curr, radius, iterations, features)[i],
    ]);
}

/// A feature is skipped at a level whatever its displacement so far.
pub proof fn lemma_skipped_for_any_displacement(
    prev: Source,
    curr: Grid<u8>,
    scale: Binary32,
    radius: int,
    iterations: int,
    position: (Binary32, Binary32),
    d: (Binary32, Binary32),
    e: (Binary32, Binary32),
)
    ensures
        level_flow(prev, curr, scale, radius, iterations, position, d) is None <==> level_flow(
            prev,
            curr,
            scale,
            radius,
            iterations,
            position,
            e,
        ) is None,
{
}

/// A feature that is not valid stays where it is, whatever the finer levels
/// hold.
pub proof fn lemma_skipped_stays(
    prev: Seq<Grid<u8>>,
    curr: Seq<Grid<u8>>,
    radius: int,
    iterations: int,
    features: Seq<Feature>,
)
    ensures
        forall|i: int|
            0 <= i < features.len() && !flow_status(
                prev,
                curr,
                radius,
                iterations,
                features,
            )[i] ==> is_unmoved(
                features[i],
                #[trigger] moved_all(prev, curr, radius, iterations, features)[i],
            ),
{
    assert forall|i: int|
        0 <= i < features.len() && !flow_status(
            prev,
            curr,
            radius,
            iterations,
            features,
        )[i] implies is_unmoved(
        features[i],
        #[trigger] moved_all(prev, curr, radius, iterations, features)[i],
    ) by {
        lemma_sum_with_zero(features[i].x);
        lemma_sum_with_zero(features[i].y);
    }
}

/// In an image without samples after the last row a tap inside is the pixel
/// there, and one outside counts as zero.
pub proof fn lemma_tap_number(g: Grid<u8>, x: int, y: int)
    requires
        g.is_exact(),
    ensures
        gray_numbers(g)(x, y) == if g.contains(x, y) {
            of_int(g.at(x, y) as int)
        } else {
            zero()
        },
{
    lemma_tap_exact(g, x, y);
}

/// A feature whose window leaves the coarsest level of the previous image is
/// reported as not valid, whatever the images hold.
pub proof fn lemma_out_of_bounds_has_no_flow(
    prev: Seq<Grid<u8>>,
    curr: Seq<Grid<u8>>,
    radius: int,
    iterations: int,
    position: (Binary32, Binary32),
)
    requires
        prev.len() > 0,
        ({
            let scale = of_power((prev.len() - 1) as nat);
            !is_in_bounds(
                prev.last(),
                position.0.quotient(scale),
                position.1.quotient(scale),
                radius,
            )
        }),
    ensures
        !has_flow(prev, curr, radius, iterations, position),
{
}

/// A feature on an image that is flat at the coarsest level is reported as not
/// valid.
pub proof fn lemma_flat_has_no_flow(
    prev: Seq<Grid<u8>>,
    curr: Seq<Grid<u8>>,
    radius: int,
    iterations: int,
    position: (Binary32, Binary32),
    value: u8,
)
    requires
        prev.len() > 0,
        0 <= radius < 0x8000_0000,
        0 <= prev.last().width <= u32::MAX,
        0 <= prev.last().height <= u32::MAX,
        prev.last() == uniform(prev.last().width, prev.last().height, value),
    ensures
        !has_flow(prev, curr, radius, iterations, position),
{
    let g = prev.last();
    let scale = of_power((prev.len() - 1) as nat);
    let x = position.0.quotient(scale);
    let y = position.1.quotient(scale);
    if is_in_bounds(g, x, y, radius) {
        lemma_within_bounded(x, g.width, radius);
        lemma_within_bounded(y, g.height, radius);
        assert(g.trimmed() == g) by {
            assert(0 <= g.width * g.height) by (nonlinear_arith)
                requires
                    0 <= g.width,
                    0 <= g.height,
            ;
            assert(g.trimmed().samples =~= g.samples);
        }
        lemma_uniform_gradients(g.width, g.height, value);
        let area = window_area(radius);
        lemma_flat_hessian(source_of(g), x, y, radius, area);
        let h = hessian(source_of(g), x, y, radius, area);
        lemma_product_zero(h.0, h.2);
        lemma_product_zero(h.1, h.1);
        let a = h.0.product(h.2);
        let b = h.1.product(h.1);
        lemma_signed(!b.negative(), b.pattern());
        lemma_sum_zero(a, b.negated());
        let det = a.difference(b);
        lemma_signed(false, det.pattern());
        assert(det.absolute().is_at_most(Binary32 { bits: DET_EPSILON }));
    }
}

/// A position with a window around it inside an image is a number of moderate
/// size.
proof fn lemma_within_bounded(c: Binary32, length: int, radius: int)
    requires
        is_within(c, length, radius),
        0 <= length <= u32::MAX,
        0 <= radius < 0x8000_0000,
    ensures
        c.is_finite(),
        magnitude(c.value()) <= pow2(149 + 33),
{
    lemma2_to64();
    let top = of_int(length).difference(of_int(radius));
    lemma_of_int_bounded(length, 32);
    lemma_of_int_bounded(radius, 32);
    lemma_pow2_unfold(149 + 33);
    lemma_difference_bounded(of_int(length), of_int(radius), 33);
    lemma_of_int_number(radius);
    lemma_rank_orders_values(c, top);
    lemma_rank_orders_values(of_int(radius), c);
    lemma_units_nonnegative(of_int(radius).pattern());
}

/// Where all derivatives are zero the sums of their products are.
proof fn lemma_flat_hessian(g: Source, x: Binary32, y: Binary32, radius: int, n: int)
    requires
        0 <= radius < 0x8000_0000,
        0 <= n <= window_area(radius),
        g.grad_x == uniform(g.grad_x.width, g.grad_x.height, 0i16),
        g.grad_y == g.grad_x,
        x.is_finite(),
        y.is_finite(),
        magnitude(x.value()) <= pow2(149 + 33),
        magnitude(y.value()) <= pow2(149 + 33),
    ensures
        hessian(g, x, y, radius, n).0.pattern() == 0,
        hessian(g, x, y, radius, n).1.pattern() == 0,
        hessian(g, x, y, radius, n).2.pattern() == 0,
    decreases n,
{
    if n > 0 {
        lemma_flat_hessian(g, x, y, radius, n - 1);
        let side = 2 * radius + 1;
        let k = n - 1;
        assert(side * side == window_area(radius));
        lemma_place(side, side, k);
        let offset = window_offsets(radius)[k];
        lemma_shift_bounded(x, k % side - radius);
        lemma_shift_bounded(y, k / side - radius);
        let sx = x.sum(offset.0);
        let sy = y.sum(offset.1);
        let flat = g.grad_x;
        lemma_flat_bilinear(flat, sx, sy);
        lemma_of_int_exact(32);
        let zero_gradient = bilinear(gradient_numbers(flat), sx, sy);
        lemma_quotient_zero(zero_gradient, of_int(32));
        let d = zero_gradient.quotient(of_int(32));
        lemma_product_zero(d, d);
        let before = hessian(g, x, y, radius, n - 1);
        lemma_sum_zero(before.0, d.product(d));
        lemma_sum_zero(before.1, d.product(d));
        lemma_sum_zero(before.2, d.product(d));
    }
}

proof fn lemma_shift_bounded(c: Binary32, shift: int)
    requires
        c.is_finite(),
        magnitude(c.value()) <= pow2(149 + 33),
        -0x8000_0000 <= shift <= 0x8000_0000,
    ensures
        c.sum(of_int(shift)).is_finite(),
        magnitude(c.sum(of_int(shift)).value()) <= pow2(149 + 34),
{
    lemma2_to64_rest();
    lemma_of_int_bounded(shift, 33);
    lemma_pow2_unfold(149 + 34);
    lemma_sum_bounded(c, of_int(shift), 34);
}

/// Interpolation between zeros gives zero.
proof fn lemma_flat_bilinear(flat: Grid<i16>, x: Binary32, y: Binary32)
    requires
        flat == uniform(flat.width, flat.height, 0i16),
        x.is_finite(),
        y.is_finite(),
        magnitude(x.value()) <= pow2(149 + 34),
        magnitude(y.value()) <= pow2(149 + 34),
    ensures
        bilinear(gradient_numbers(flat), x, y).pattern() == 0,
{
    reveal(bilinear);
    let numbers = gradient_numbers(flat);
    let x0 = whole(x);
    let y0 = whole(y);
    lemma_fraction_finite(x);
    lemma_fraction_finite(y);
    let dx = x.difference(of_int(x0));
    let dy = y.difference(of_int(y0));
    let dx1 = of_int(1).difference(dx);
    let dy1 = of_int(1).difference(dy);
    let t0 = lemma_flat_term(flat, x0, y0, dx1, dy1);
    let t1 = lemma_flat_term(flat, x0, y0 + 1, dx1, dy);
    let t2 = lemma_flat_term(flat, x0 + 1, y0, dx, dy1);
    let t3 = lemma_flat_term(flat, x0 + 1, y0 + 1, dx, dy);
    lemma_sum_zero(zero(), t0);
    lemma_sum_zero(zero().sum(t0), t1);
    lemma_sum_zero(zero().sum(t0).sum(t1), t2);
    lemma_sum_zero(zero().sum(t0).sum(t1).sum(t2), t3);
}

/// The weights of an interpolation are finite.
proof fn lemma_fraction_finite(x: Binary32)
    requires
        x.is_finite(),
        magnitude(x.value()) <= pow2(149 + 34),
    ensures
        x.difference(of_int(whole(x))).is_finite(),
        of_int(1).difference(x.difference(of_int(whole(x)))).is_finite(),
{
    lemma2_to64_rest();
    let x0 = whole(x);
    lemma_of_int_bounded(x0, 34);
    lemma_pow2_unfold(149 + 35);
    lemma_difference_bounded(x, of_int(x0), 35);
    lemma_of_int_bounded(1, 35);
    lemma_pow2_unfold(149 + 36);
    lemma_difference_bounded(of_int(1), x.difference(of_int(x0)), 36);
}

/// A tap of zero contributes zero.
proof fn lemma_flat_term(
    flat: Grid<i16>,
    x: int,
    y: int,
    wx: Binary32,
    wy: Binary32,
) -> (term: Binary32)
    requires
        flat == uniform(flat.width, flat.height, 0i16),
        wx.is_finite(),
        wy.is_finite(),
    ensures
        term == gradient_numbers(flat)(x, y).product(wx).product(wy),
        term.pattern() == 0,
{
    let n = gradient_numbers(flat)(x, y);
    lemma_of_int_exact(0);
    assert(n.pattern() == 0) by {
        if flat.tap(x, y) is Some {
            assert(0 <= y * flat.width) by (nonlinear_arith)
                requires
                    0 <= y,
                    0 <= flat.width,
            ;
            assert(flat.at(x, y) == 0);
        }
    }
    lemma_product_zero(n, wx);
    lemma_product_zero(n.product(wx), wy);
    n.product(wx).product(wy)
}

/// Track every feature through one pyramid level. Where the level is the
/// coarsest the status of the features that are not skipped becomes `true`.
pub fn track_level(
    prev_img: &GrayImage,
    curr_img: &GrayImage,
    grad_x: &GradPlane,
    grad_y: &GradPlane,
    scale: Binary32,
    radius: usize,
    max_iterations: usize,
    is_coarsest: bool,
    features: &[Feature],
    displacements: &mut Vec<(Binary32, Binary32)>,
    offsets: &Vec<(Binary32, Binary32)>,
    prev_patch: &mut Vec<Binary32>,
    ix_patch: &mut Vec<Binary32>,
    iy_patch: &mut Vec<Binary32>,
    status: &mut Vec<bool>,
)
    requires
        offsets@ == window_offsets(radius as int),
        old(prev_patch)@.len() == offsets@.len(),
        old(ix_patch)@.len() == offsets@.len(),
        old(iy_patch)@.len() == offsets@.len(),
        old(displacements)@.len() == features@.len(),
        old(status)@.len() == features@.len(),
    ensures
        final(prev_patch)@.len() == offsets@.len(),
        final(ix_patch)@.len() == offsets@.len(),
        final(iy_patch)@.len() == offsets@.len(),
        final(displacements)@.len() == features@.len(),
        final(status)@.len() == features@.len(),
        forall|i: int|
            0 <= i < features@.len() ==> #[trigger] final(displacements)@[i] == (match level_flow(
                source(*prev_img, *grad_x, *grad_y),
                gray(*curr_img),
                scale,
                radius as int,
                max_iterations as int,
                (features@[i].x, features@[i].y),
                old(displacements)@[i],
            ) {
                Some(d) => d,
                None => old(displacements)@[i],
            }),
        forall|i: int|
            0 <= i < features@.len() ==> #[trigger] final(status)@[i] == (old(status)@[i]
                || is_coarsest && level_flow(
                source(*prev_img, *grad_x, *grad_y),
                gray(*curr_img),
                scale,
                radius as int,
                max_iterations as int,
                (features@[i].x, features@[i].y),
                old(displacements)@[i],
            ) is Some),
{
    proof {
        assert(offsets@.len() == offsets.len());
        assert(window_area(radius as int) >= 0) by (nonlinear_arith)
            requires
                window_area(radius as int) == (2 * radius + 1) * (2 * radius + 1),
        ;
        assert(radius <= u32::MAX) by (nonlinear_arith)
            requires
                (2 * radius + 1) * (2 * radius + 1) <= usize::MAX,
                usize::MAX <= 0xffff_ffff_ffff_ffff,
        ;
    }
    let ghost before = displacements@;
    let ghost flags = status@;
    let ghost flow = |i: int|
        level_flow(
            source(*prev_img, *grad_x, *grad_y),
            gray(*curr_img),
            scale,
            radius as int,
            max_iterations as int,
            (features@[i].x, features@[i].y),
            before[i],
        );
    let mut fi: usize = 0;
    while fi < features.len()
        invariant
            radius <= u32::MAX,
            offsets@ == window_offsets(radius as int),
            prev_patch@.len() == offsets@.len(),
            ix_patch@.len() == offsets@.len(),
            iy_patch@.len() == offsets@.len(),
            before.len() == features@.len(),
            flags.len() == features@.len(),
            displacements@.len() == features@.len(),
            status@.len() == features@.len(),
            flow == (|i: int|
                level_flow(
                    source(*prev_img, *grad_x, *grad_y),
                    gray(*curr_img),
                    scale,
                    radius as int,
                    max_iterations as int,
                    (features@[i].x, features@[i].y),
                    before[i],
                )),
            fi <= features@.len(),
            forall|i: int|
                0 <= i < fi ==> #[trigger] displacements@[i] == (match flow(i) {
                    Some(d) => d,
                    None => before[i],
                }),
            forall|i: int| fi <= i < features@.len() ==> #[trigger] displacements@[i] == before[i],
            forall|i: int|
                0 <= i < fi ==> #[trigger] status@[i] == (flags[i] || is_coarsest && flow(
                    i,
                ) is Some),
            forall|i: int| fi <= i < features@.len() ==> #[trigger] status@[i] == flags[i],
        decreases features@.len() - fi,
    {
        let feat: Feature = features[fi];
        let disp: (Binary32, Binary32) = displacements[fi];
        let found: Option<(Binary32, Binary32)> = track_feature(
            prev_img,
            curr_img,
            grad_x,
            grad_y,
            scale,
            radius,
            max_iterations,
            (feat.x, feat.y),
            disp,
            offsets,
            prev_patch,
            ix_patch,
            iy_patch,
        );
        assert(found == flow(fi as int));
        if let Some(d) = found {
            if is_coarsest {
                status[fi] = true;
            }
            displacements[fi] = d;
        }
        fi = fi + 1;
    }
}

/// Storage for the walk from the coarsest pyramid level down to the first.
struct LevelWalk {
    prev_patch: Vec<Binary32>,
    ix_patch: Vec<Binary32>,
    iy_patch: Vec<Binary32>,
    displacements: Vec<(Binary32, Binary32)>,
    offsets: Vec<(Binary32, Binary32)>,
    status: Vec<bool>,
    radius: usize,
}

impl LevelWalk {
    /// Patches and offsets are those of the window.
    spec fn well_formed(&self) -> bool {
        &&& self.radius <= u32::MAX
        &&& self.offsets@ == window_offsets(self.radius as int)
        &&& self.prev_patch@.len() == self.offsets@.len()
        &&& self.ix_patch@.len() == self.offsets@.len()
        &&& self.iy_patch@.len() == self.offsets@.len()
    }

    /// The levels down to `level` are behind.
    spec fn has_reached(
        &self,
        status: Seq<bool>,
        prev: Seq<Grid<u8>>,
        curr: Seq<Grid<u8>>,
        iterations: int,
        features: Seq<Feature>,
        level: int,
    ) -> bool {
        &&& self.displacements@ == displacements_at(
            prev,
            curr,
            self.radius as int,
            iterations,
            features,
            level,
        )
        &&& status == if level < prev.len() {
            flow_status(prev, curr, self.radius as int, iterations, features)
        } else {
            Seq::new(features.len(), |i: int| false)
        }
    }

    /// Start above the coarsest level: no displacement and no valid feature.
    fn begin(
        &mut self,
        status: &mut Vec<bool>,
        features: &[Feature],
        Ghost(prev): Ghost<Seq<Grid<u8>>>,
        Ghost(curr): Ghost<Seq<Grid<u8>>>,
        Ghost(iterations): Ghost<int>,
    )
        requires
            old(self).well_formed(),
        ensures
            final(self).well_formed(),
            final(self).radius == old(self).radius,
            final(self).has_reached(
                final(status)@,
                prev,
                curr,
                iterations,
                features@,
                prev.len() as int,
            ),
    {
        Self::reset_status(&mut self.displacements, status, features.len());
        assert(self.displacements@ =~= displacements_at(
            prev,
            curr,
            self.radius as int,
            iterations,
            features@,
            prev.len() as int,
        ));
    }

    /// Track the features through one more level.
    fn descend(
        &mut self,
        prev_img: &GrayImage,
        curr_img: &GrayImage,
        grad_x: &GradPlane,
        grad_y: &GradPlane,
        level: usize,
        is_coarsest: bool,
        features: &[Feature],
        max_iterations: usize,
        status: &mut Vec<bool>,
        Ghost(prev): Ghost<Seq<Grid<u8>>>,
        Ghost(curr): Ghost<Seq<Grid<u8>>>,
    )
        requires
            old(self).well_formed(),
            level < prev.len(),
            is_coarsest == (level == prev.len() - 1),
            gray(*curr_img) == curr[level as int],
            source(*prev_img, *grad_x, *grad_y) == source_of(prev[level as int]),
            old(self).has_reached(
                old(status)@,
                prev,
                curr,
                max_iterations as int,
                features@,
                level + 1,
            ),
        ensures
            final(self).well_formed(),
            final(self).radius == old(self).radius,
            final(self).has_reached(
                final(status)@,
                prev,
                curr,
                max_iterations as int,
                features@,
                level as int,
            ),
    {
        let scale: Binary32 = Self::level_scale(level);
        track_level(
            prev_img,
            curr_img,
            grad_x,
            grad_y,
            scale,
            self.radius,
            max_iterations,
            is_coarsest,
            features,
            &mut self.displacements,
            &self.offsets,
            &mut self.prev_patch,
            &mut self.ix_patch,
            &mut self.iy_patch,
            status,
        );
        proof {
            let radius = self.radius as int;
            let iterations = max_iterations as int;
            assert(self.displacements@ =~= displacements_at(
                prev,
                curr,
                radius,
                iterations,
                features@,
                level as int,
            ));
            assert(status@ =~= flow_status(prev, curr, radius, iterations, features@));
        }
    }

    /// Move the features once the first level is behind.
    fn finish(
        &self,
        features: &mut [Feature],
        status: &Vec<bool>,
        Ghost(prev): Ghost<Seq<Grid<u8>>>,
        Ghost(curr): Ghost<Seq<Grid<u8>>>,
        Ghost(iterations): Ghost<int>,
    )
        requires
            prev.len() > 0,
            self.has_reached(status@, prev, curr, iterations, old(features)@, 0),
        ensures
            final(features)@ == moved_all(
                prev,
                curr,
                self.radius as int,
                iterations,
                old(features)@,
            ),
    {
        let ghost all = features@;
        Self::apply_displacements(features, &self.displacements, status);
        assert(features@ =~= moved_all(prev, curr, self.radius as int, iterations, all));
    }

    /// How much smaller a level is than the first.
    fn level_scale(level: usize) -> (scale: Binary32)
        ensures
            scale == of_power(level as nat),
    {
        Binary32::power_of_two(
            if level < 128 {
                level as u32
            } else {
                128
            },
        )
    }

    /// No displacement and no valid feature yet.
    fn reset_status(
        displacements: &mut Vec<(Binary32, Binary32)>,
        status: &mut Vec<bool>,
        n_features: usize,
    )
        ensures
            final(displacements)@ == Seq::new(n_features as nat, |i: int| (zero(), zero())),
            final(status)@ == Seq::new(n_features as nat, |i: int| false),
    {
        displacements.clear();
        let mut i: usize = 0;
        while i < n_features
            invariant
                i <= n_features,
                displacements@ =~= Seq::new(i as nat, |i: int| (zero(), zero())),
            decreases n_features - i,
        {
            displacements.push((Binary32::from_bits(0), Binary32::from_bits(0)));
            i = i + 1;
        }
        status.clear();
        status.resize(n_features, false);
        proof {
            assert(status@ =~= Seq::new(n_features as nat, |i: int| false));
        }
    }

    /// Move each valid feature by its displacement, and the others by zero.
    fn apply_displacements(
        features: &mut [Feature],
        displacements: &Vec<(Binary32, Binary32)>,
        status: &Vec<bool>,
    )
        requires
            displacements@.len() == old(features)@.len(),
            status@.len() == old(features)@.len(),
        ensures
            final(features)@ == Seq::new(
                old(features)@.len(),
                |i: int| shifted(old(features)@[i], displacements@[i], status@[i]),
            ),
    {
        let ghost all = features@;
        let mut i: usize = 0;
        while i < features.len()
            invariant
                features@.len() == all.len(),
                displacements@.len() == all.len(),
                status@.len() == all.len(),
                i <= all.len(),
                forall|j: int|
                    0 <= j < i ==> #[trigger] features@[j] == shifted(
                        all[j],
                        displacements@[j],
                        status@[j],
                    ),
                forall|j: int| i <= j < all.len() ==> #[trigger] features@[j] == all[j],
            decreases all.len() - i,
        {
            let f: Feature = features[i];
            let (dx, dy) = if status[i] {
                displacements[i]
            } else {
                (Binary32::from_bits(0), Binary32::from_bits(0))
            };
            features[i] = Feature { x: f.x.plus(dx), y: f.y.plus(dy), strength: f.strength };
            i = i + 1;
        }
    }
}

/// A feature moved by its displacement if it is valid, and by zero if not.
spec fn shifted(f: Feature, d: (Binary32, Binary32), valid: bool) -> Feature {
    let by = if valid {
        d
    } else {
        (zero(), zero())
    };
    Feature { x: f.x.sum(by.0), y: f.y.sum(by.1), strength: f.strength }
}

/// Reusable storage for the Lucas-Kanade tracking pipeline.
/// [`track`](crate::buffers::track) reuses it.
pub struct LkBuffer {
    grad_x: Vec<GradPlane>,
    grad_y: Vec<GradPlane>,
    walk: LevelWalk,
}

/// Dimensions of planes.
pub open spec fn plane_sizes(planes: Seq<GradPlane>) -> Seq<(u32, u32)> {
    Seq::new(planes.len(), |i: int| plane_size(planes[i]))
}

/// Dimensions of images.
pub open spec fn gray_sizes(images: Seq<GrayImage>) -> Seq<(u32, u32)> {
    Seq::new(images.len(), |i: int| gray_size(images[i]))
}

/// The levels of a pyramid have the dimensions for which storage is allocated,
/// so that flow can be computed from it.
pub proof fn lemma_pyramid_sizes(images: Seq<GrayImage>, g: Grid<u8>, levels: nat)
    requires
        g.is_exact(),
        grids(images) == pyramid(g, level_count(g.width, g.height, levels)),
    ensures
        gray_sizes(images) == level_dimensions(g.width, g.height, levels),
        gray_sizes(images) == level_dimensions(g.width, g.height, images.len()),
{
    let count = level_count(g.width, g.height, levels);
    lemma_level_count_again(g.width, g.height, levels);
    assert(grids(images).len() == count);
    assert forall|i: int| 0 <= i < images.len() implies gray_sizes(images)[i] == (
        halved_length(g.width, i as nat) as u32,
        halved_length(g.height, i as nat) as u32,
    ) by {
        lemma_level_dimensions(g, i as nat);
        assert(grids(images)[i] == gray(images[i]));
    }
    assert(gray_sizes(images) =~= level_dimensions(g.width, g.height, levels));
}

impl LkBuffer {
    /// Patches and offsets are those of the window, and each level has two
    /// planes.
    pub closed spec fn well_formed(&self) -> bool {
        &&& self.walk.well_formed()
        &&& plane_sizes(self.grad_y@) == plane_sizes(self.grad_x@)
        &&& forall|i: int|
            0 <= i < self.grad_x@.len() ==> plane(#[trigger] self.grad_x@[i]).is_exact()
        &&& forall|i: int|
            0 <= i < self.grad_y@.len() ==> plane(#[trigger] self.grad_y@[i]).is_exact()
    }

    /// Half of the window, without its centre.
    pub closed spec fn radius(&self) -> int {
        self.walk.radius as int
    }

    /// Dimensions of the pyramid levels for which there are gradient planes.
    pub closed spec fn level_sizes(&self) -> Seq<(u32, u32)> {
        plane_sizes(self.grad_x@)
    }

    /// Pre-allocate gradient planes for `levels` pyramid levels and patches of
    /// `window_size * window_size` pixels. The window has an odd side.
    pub fn with_capacity(
        width: u32,
        height: u32,
        levels: usize,
        window_size: usize,
        max_features: usize,
    ) -> (r: LkBuffer)
        requires
            window_size % 2 == 1,
            8 * (window_size * window_size) <= isize::MAX,
            2 * (width * height) <= isize::MAX,
            8 * max_features <= isize::MAX,
        ensures
            r.well_formed(),
            r.radius() == window_size as int / 2,
            r.level_sizes() == level_dimensions(width as int, height as int, levels as nat),
    {
        let dims: Vec<(u32, u32)> = pyramid_dims(width, height, levels);
        let mut grad_x: Vec<GradPlane> = Vec::new();
        let mut grad_y: Vec<GradPlane> = Vec::new();
        let mut i: usize = 0;
        while i < dims.len()
            invariant
                2 * (width * height) <= isize::MAX,
                dims@ == level_dimensions(width as int, height as int, levels as nat),
                i <= dims@.len(),
                grad_x@.len() == i,
                grad_y@.len() == i,
                forall|j: int|
                    0 <= j < i ==> plane(#[trigger] grad_x@[j]).is_exact() && plane_size(grad_x@[j])
                        == dims@[j],
                forall|j: int|
                    0 <= j < i ==> plane(#[trigger] grad_y@[j]).is_exact() && plane_size(grad_y@[j])
                        == dims@[j],
            decreases dims@.len() - i,
        {
            let (w, h) = dims[i];
            proof {
                lemma_level_within(width, height, i as nat);
                assert(w * h <= width * height) by (nonlinear_arith)
                    requires
                        0 <= w <= width,
                        0 <= h <= height,
                ;
            }
            grad_x.push(GradPlane::new(w, h));
            grad_y.push(GradPlane::new(w, h));
            i = i + 1;
        }
        let radius: usize = window_size / 2;
        proof {
            assert(window_size == 2 * radius + 1);
            assert(window_area(radius as int) == window_size * window_size);
            assert(window_size <= 0x8000_0000) by (nonlinear_arith)
                requires
                    8 * (window_size * window_size) <= isize::MAX,
                    isize::MAX <= 0x7fff_ffff_ffff_ffff,
            ;
            assert(0 <= window_size * window_size) by (nonlinear_arith);
        }
        let n_pixels: usize = window_size * window_size;
        let none: Binary32 = Binary32::from_bits(0);
        let walk = LevelWalk {
            prev_patch: vec![none; n_pixels],
            ix_patch: vec![none; n_pixels],
            iy_patch: vec![none; n_pixels],
            displacements: Vec::with_capacity(max_features),
            offsets: build_window_offsets(radius),
            status: Vec::with_capacity(max_features),
            radius,
        };
        let r = LkBuffer { grad_x, grad_y, walk };
        proof {
            assert(plane_sizes(r.grad_x@) =~= dims@);
            assert(plane_sizes(r.grad_y@) =~= dims@);
        }
        r
    }

    /// Track `features` from `prev_pyramid` to `curr_pyramid` in place, moving
    /// each feature by the displacement that was found, and leaving one that
    /// was skipped at the coarsest level where it is. `strength` is left
    /// untouched. The gradients of `prev_pyramid` are computed anew.
    pub fn calc_into(
        &mut self,
        prev_pyramid: &[GrayImage],
        curr_pyramid: &[GrayImage],
        features: &mut [Feature],
        max_iterations: usize,
    )
        requires
            old(self).well_formed(),
            prev_pyramid@.len() > 0,
            curr_pyramid@.len() == prev_pyramid@.len(),
            gray_sizes(prev_pyramid@).is_prefix_of(old(self).level_sizes()),
        ensures
            final(self).well_formed(),
            final(self).radius() == old(self).radius(),
            final(self).level_sizes() == old(self).level_sizes(),
            final(features)@ == moved_all(
                grids(prev_pyramid@),
                grids(curr_pyramid@),
                old(self).radius(),
                max_iterations as int,
                old(features)@,
            ),
    {
        self.calc_into_status(prev_pyramid, curr_pyramid, features, max_iterations, None);
    }

    /// Like [`calc_into`](Self::calc_into), and also reports which features
    /// have a flow estimate. A feature is not valid if it was skipped at the
    /// coarsest pyramid level, because its window fell outside the previous
    /// image or its matrix was singular. Its displacement is `(0, 0)`.
    ///
    /// `valid_out`, when given, holds one entry per feature afterwards.
    pub fn calc_into_status(
        &mut self,
        prev_pyramid: &[GrayImage],
        curr_pyramid: &[GrayImage],
        features: &mut [Feature],
        max_iterations: usize,
        valid_out: Option<&mut Vec<bool>>,
    )
        requires
            old(self).well_formed(),
            prev_pyramid@.len() > 0,
            curr_pyramid@.len() == prev_pyramid@.len(),
            gray_sizes(prev_pyramid@).is_prefix_of(old(self).level_sizes()),
        ensures
            final(self).well_formed(),
            final(self).radius() == old(self).radius(),
            final(self).level_sizes() == old(self).level_sizes(),
            final(features)@ == moved_all(
                grids(prev_pyramid@),
                grids(curr_pyramid@),
                old(self).radius(),
                max_iterations as int,
                old(features)@,
            ),
            valid_out matches Some(valid) ==> final(valid)@ == flow_status(
                grids(prev_pyramid@),
                grids(curr_pyramid@),
                old(self).radius(),
                max_iterations as int,
                old(features)@,
            ),
    {
        match valid_out {
            Some(valid) => {
                self.flow_from_images(prev_pyramid, curr_pyramid, features, max_iterations, valid);
            },
            None => {
                let mut status: Vec<bool> = Vec::new();
                std::mem::swap(&mut status, &mut self.walk.status);
                self.flow_from_images(
                    prev_pyramid,
                    curr_pyramid,
                    features,
                    max_iterations,
                    &mut status,
                );
                std::mem::swap(&mut status, &mut self.walk.status);
            },
        }
    }

    /// Like [`calc_into`](Self::calc_into), but with the gradients that belong
    /// to `prev_pyramid`.
    pub fn calc_into_cached(
        &mut self,
        prev_pyramid: &PyramidBuffer,
        curr_pyramid: &PyramidBuffer,
        features: &mut [Feature],
        max_iterations: usize,
    )
        requires
            old(self).well_formed(),
            prev_pyramid.well_formed(),
            curr_pyramid.well_formed(),
            prev_pyramid@.len() > 0,
            curr_pyramid@.len() == prev_pyramid@.len(),
        ensures
            final(self).well_formed(),
            final(self).radius() == old(self).radius(),
            final(self).level_sizes() == old(self).level_sizes(),
            final(features)@ == moved_all(
                prev_pyramid@,
                curr_pyramid@,
                old(self).radius(),
                max_iterations as int,
                old(features)@,
            ),
    {
        self.calc_into_status_cached(prev_pyramid, curr_pyramid, features, max_iterations, None);
    }

    /// Like [`calc_into_status`](Self::calc_into_status), but with the
    /// gradients that belong to `prev_pyramid`.
    pub fn calc_into_status_cached(
        &mut self,
        prev_pyramid: &PyramidBuffer,
        curr_pyramid: &PyramidBuffer,
        features: &mut [Feature],
        max_iterations: usize,
        valid_out: Option<&mut Vec<bool>>,
    )
        requires
            old(self).well_formed(),
            prev_pyramid.well_formed(),
            curr_pyramid.well_formed(),
            prev_pyramid@.len() > 0,
            curr_pyramid@.len() == prev_pyramid@.len(),
        ensures
            final(self).well_formed(),
            final(self).radius() == old(self).radius(),
            final(self).level_sizes() == old(self).level_sizes(),
            final(features)@ == moved_all(
                prev_pyramid@,
                curr_pyramid@,
                old(self).radius(),
                max_iterations as int,
                old(features)@,
            ),
            valid_out matches Some(valid) ==> final(valid)@ == flow_status(
                prev_pyramid@,
                curr_pyramid@,
                old(self).radius(),
                max_iterations as int,
                old(features)@,
            ),
    {
        match valid_out {
            Some(valid) => {
                self.flow_from_pyramids(
                    prev_pyramid,
                    curr_pyramid,
                    features,
                    max_iterations,
                    valid,
                );
            },
            None => {
                let mut status: Vec<bool> = Vec::new();
                std::mem::swap(&mut status, &mut self.walk.status);
                self.flow_from_pyramids(
                    prev_pyramid,
                    curr_pyramid,
                    features,
                    max_iterations,
                    &mut status,
                );
                std::mem::swap(&mut status, &mut self.walk.status);
            },
        }
    }

    fn flow_from_images(
        &mut self,
        prev_pyramid: &[GrayImage],
        curr_pyramid: &[GrayImage],
        features: &mut [Feature],
        max_iterations: usize,
        status: &mut Vec<bool>,
    )
        requires
            old(self).well_formed(),
            prev_pyramid@.len() > 0,
            curr_pyramid@.len() == prev_pyramid@.len(),
            gray_sizes(prev_pyramid@).is_prefix_of(old(self).level_sizes()),
        ensures
            final(self).well_formed(),
            final(self).radius() == old(self).radius(),
            final(self).level_sizes() == old(self).level_sizes(),
            final(features)@ == moved_all(
                grids(prev_pyramid@),
                grids(curr_pyramid@),
                old(self).radius(),
                max_iterations as int,
                old(features)@,
            ),
            final(status)@ == flow_status(
                grids(prev_pyramid@),
                grids(curr_pyramid@),
                old(self).radius(),
                max_iterations as int,
                old(features)@,
            ),
    {
        let ghost prev = grids(prev_pyramid@);
        let ghost curr = grids(curr_pyramid@);
        let ghost all = features@;
        let ghost iterations = max_iterations as int;
        let ghost sizes = self.level_sizes();
        let ghost radius = self.radius();
        let n_levels: usize = prev_pyramid.len();
        self.walk.begin(status, features, Ghost(prev), Ghost(curr), Ghost(iterations));
        let mut level: usize = n_levels;
        while level > 0
            invariant
                self.well_formed(),
                prev == grids(prev_pyramid@),
                curr == grids(curr_pyramid@),
                prev_pyramid@.len() == n_levels,
                curr_pyramid@.len() == n_levels,
                all == features@,
                iterations == max_iterations,
                radius == self.radius(),
                sizes == self.level_sizes(),
                gray_sizes(prev_pyramid@).is_prefix_of(sizes),
                level <= n_levels,
                self.walk.has_reached(status@, prev, curr, iterations, all, level as int),
            decreases level,
        {
            level = level - 1;
            assert(gray_sizes(prev_pyramid@)[level as int] == sizes[level as int]);
            self.compute_gradients(&prev_pyramid[level], level);
            assert(prev[level as int] == gray(prev_pyramid@[level as int]));
            self.walk.descend(
                &prev_pyramid[level],
                &curr_pyramid[level],
                &self.grad_x[level],
                &self.grad_y[level],
                level,
                level == n_levels - 1,
                features,
                max_iterations,
                status,
                Ghost(prev),
                Ghost(curr),
            );
        }
        self.walk.finish(features, status, Ghost(prev), Ghost(curr), Ghost(iterations));
    }

    /// Compute the gradients of one level.
    fn compute_gradients(&mut self, img: &GrayImage, level: usize)
        requires
            old(self).well_formed(),
            level < old(self).level_sizes().len(),
            gray_size(*img) == old(self).level_sizes()[level as int],
        ensures
            final(self).well_formed(),
            final(self).walk == old(self).walk,
            final(self).level_sizes() == old(self).level_sizes(),
            source(*img, final(self).grad_x@[level as int], final(self).grad_y@[level as int])
                == source_of(gray(*img)),
    {
        let ghost before = *self;
        let flat: FlatSamples<'_> = gray_flat_samples(img);
        proof {
            lemma_packed_grid(flat);
            assert(flat.grid() == gray(*img).trimmed());
            assert(self.level_sizes()[level as int] == plane_size(self.grad_x@[level as int]));
            assert(plane_sizes(self.grad_y@)[level as int] == plane_size(
                self.grad_y@[level as int],
            ));
        }
        compute_gradients_into(&flat, &mut self.grad_x[level], &mut self.grad_y[level]);
        proof {
            assert(plane_sizes(self.grad_x@) =~= plane_sizes(before.grad_x@));
            assert(plane_sizes(self.grad_y@) =~= plane_sizes(before.grad_y@));
            assert forall|i: int| 0 <= i < self.grad_x@.len() implies plane(
                #[trigger] self.grad_x@[i],
            ).is_exact() by {
                if i != level {
                    assert(self.grad_x@[i] == before.grad_x@[i]);
                }
            }
            assert forall|i: int| 0 <= i < self.grad_y@.len() implies plane(
                #[trigger] self.grad_y@[i],
            ).is_exact() by {
                if i != level {
                    assert(self.grad_y@[i] == before.grad_y@[i]);
                }
            }
        }
    }

    fn flow_from_pyramids(
        &mut self,
        prev_pyramid: &PyramidBuffer,
        curr_pyramid: &PyramidBuffer,
        features: &mut [Feature],
        max_iterations: usize,
        status: &mut Vec<bool>,
    )
        requires
            old(self).well_formed(),
            prev_pyramid.well_formed(),
            curr_pyramid.well_formed(),
            prev_pyramid@.len() > 0,
            curr_pyramid@.len() == prev_pyramid@.len(),
        ensures
            final(self).well_formed(),
            final(self).radius() == old(self).radius(),
            final(self).level_sizes() == old(self).level_sizes(),
            final(features)@ == moved_all(
                prev_pyramid@,
                curr_pyramid@,
                old(self).radius(),
                max_iterations as int,
                old(features)@,
            ),
            final(status)@ == flow_status(
                prev_pyramid@,
                curr_pyramid@,
                old(self).radius(),
                max_iterations as int,
                old(features)@,
            ),
    {
        let ghost prev = prev_pyramid@;
        let ghost curr = curr_pyramid@;
        let ghost all = features@;
        let ghost iterations = max_iterations as int;
        let ghost sizes = self.level_sizes();
        let ghost radius = self.radius();
        let prev_levels: &[GrayImage] = prev_pyramid.levels();
        let curr_levels: &[GrayImage] = curr_pyramid.levels();
        let n_levels: usize = prev_levels.len();
        self.walk.begin(status, features, Ghost(prev), Ghost(curr), Ghost(iterations));
        let mut level: usize = n_levels;
        while level > 0
            invariant
                self.well_formed(),
                prev_pyramid.well_formed(),
                prev == prev_pyramid@,
                prev == grids(prev_levels@),
                curr == grids(curr_levels@),
                prev_levels@.len() == n_levels,
                curr_levels@.len() == n_levels,
                forall|i: int|
                    0 <= i < prev_levels@.len() ==> gray(#[trigger] prev_levels@[i]).is_exact(),
                all == features@,
                iterations == max_iterations,
                radius == self.radius(),
                sizes == self.level_sizes(),
                level <= n_levels,
                self.walk.has_reached(status@, prev, curr, iterations, all, level as int),
            decreases level,
        {
            level = level - 1;
            let (grad_x, grad_y) = prev_pyramid.grad_planes(level);
            proof {
                let img = gray(prev_levels@[level as int]);
                assert(prev[level as int] == img);
                assert(img.trimmed().samples =~= img.samples);
            }
            self.walk.descend(
                &prev_levels[level],
                &curr_levels[level],
                grad_x,
                grad_y,
                level,
                level == n_levels - 1,
                features,
                max_iterations,
                status,
                Ghost(prev),
                Ghost(curr),
            );
        }
        self.walk.finish(features, status, Ghost(prev), Ghost(curr), Ghost(iterations));
    }
}

/// Compute optical flow using Lucas-Kanade method.
///
/// `prev_points` are positions in the first of the two pyramids, which have
/// levels of the same number and of halved dimensions. `window_size` is the
/// side of the search window, an odd number, and `max_iterations` the limit of
/// refinements on each level.
///
/// Returns the positions in the second pyramid. A point that is skipped at the
/// coarsest level stays where it is.
pub fn calc_optical_flow(
    prev_pyramid: &[GrayImage],
    curr_pyramid: &[GrayImage],
    prev_points: &[(Binary32, Binary32)],
    window_size: usize,
    max_iterations: usize,
) -> (points: Vec<(Binary32, Binary32)>)
    requires
        prev_pyramid@.len() > 0,
        curr_pyramid@.len() == prev_pyramid@.len(),
        window_size % 2 == 1,
        8 * (window_size * window_size) <= isize::MAX,
        2 * (gray_size(prev_pyramid@[0]).0 * gray_size(prev_pyramid@[0]).1) <= isize::MAX,
        8 * prev_points@.len() <= isize::MAX,
        gray_sizes(prev_pyramid@) == level_dimensions(
            gray_size(prev_pyramid@[0]).0 as int,
            gray_size(prev_pyramid@[0]).1 as int,
            prev_pyramid@.len(),
        ),
    ensures
        points@.len() == prev_points@.len(),
        forall|i: int|
            0 <= i < points@.len() ==> #[trigger] points@[i] == flow_point(
                grids(prev_pyramid@),
                grids(curr_pyramid@),
                window_size as int / 2,
                max_iterations as int,
                prev_points@[i],
            ),
{
    let (w, h) = gray_dimensions(&prev_pyramid[0]);
    let levels: usize = prev_pyramid.len();
    let mut buf: LkBuffer = LkBuffer::with_capacity(
        w,
        h,
        levels,
        window_size,
        prev_points.len(),
    );
    let mut features: Vec<Feature> = Vec::with_capacity(prev_points.len());
    let mut i: usize = 0;
    while i < prev_points.len()
        invariant
            i <= prev_points@.len(),
            features@.len() == i,
            forall|j: int|
                0 <= j < i ==> (#[trigger] features@[j]).x == prev_points@[j].0 && features@[j].y
                    == prev_points@[j].1,
        decreases prev_points@.len() - i,
    {
        let (x, y) = prev_points[i];
        features.push(Feature { x, y, strength: Binary32::from_bits(0) });
        i = i + 1;
    }
    let ghost start = features@;
    buf.calc_into(prev_pyramid, curr_pyramid, &mut features, max_iterations);
    let ghost end = features@;
    let mut points: Vec<(Binary32, Binary32)> = Vec::with_capacity(features.len());
    let mut k: usize = 0;
    while k < features.len()
        invariant
            features@ == end,
            k <= end.len(),
            points@.len() == k,
            forall|j: int| 0 <= j < k ==> #[trigger] points@[j] == (end[j].x, end[j].y),
        decreases end.len() - k,
    {
        points.push((features[k].x, features[k].y));
        k = k + 1;
    }
    assert forall|j: int| 0 <= j < points@.len() implies #[trigger] points@[j] == flow_point(
        grids(prev_pyramid@),
        grids(curr_pyramid@),
        window_size as int / 2,
        max_iterations as int,
        prev_points@[j],
    ) by {
        assert(start[j].x == prev_points@[j].0);
    }
    points
}

/// No level is larger than the first.
pub proof fn lemma_level_within(width: u32, height: u32, level: nat)
    ensures
        0 <= halved_length(width as int, level) <= width,
        0 <= halved_length(height as int, level) <= height,
{
    vstd::arithmetic::power2::lemma_pow2_pos(level);
    let p = vstd::arithmetic::power2::pow2(level) as int;
    vstd::arithmetic::div_mod::lemma_div_pos_is_pos(width as int, p);
    vstd::arithmetic::div_mod::lemma_div_pos_is_pos(height as int, p);
    vstd::arithmetic::div_mod::lemma_div_is_ordered_by_denominator(width as int, 1, p);
    vstd::arithmetic::div_mod::lemma_div_is_ordered_by_denominator(height as int, 1, p);
}

} // verus!
