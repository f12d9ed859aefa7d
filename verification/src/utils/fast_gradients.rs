//! Scharr gradients.
use vstd::prelude::*;

use crate::flat::{lemma_sample_in_buffer, FlatSamples};
use crate::grid::{
    grid_of, lemma_grid_of_at, lemma_index, lemma_place, lemma_same_grid, transposed, Grid,
};
use crate::raster::{plane, plane_dimensions, plane_fill, plane_put, plane_size, uniform, GradPlane};

verus! {

/// A pixel with all of its eight neighbours.
pub open spec fn is_interior(width: int, height: int, x: int, y: int) -> bool {
    1 <= x < width - 1 && 1 <= y < height - 1
}

/// The horizontal Scharr derivative.
pub open spec fn scharr_x(g: Grid<u8>, x: int, y: int) -> int {
    3 * ((g.at(x + 1, y - 1) + g.at(x + 1, y + 1)) - (g.at(x - 1, y - 1) + g.at(x - 1, y + 1)))
        + 10 * (g.at(x + 1, y) - g.at(x - 1, y))
}

/// The vertical Scharr derivative.
pub open spec fn scharr_y(g: Grid<u8>, x: int, y: int) -> int {
    3 * ((g.at(x - 1, y + 1) + g.at(x + 1, y + 1)) - (g.at(x - 1, y - 1) + g.at(x + 1, y - 1)))
        + 10 * (g.at(x, y + 1) - g.at(x, y - 1))
}

/// Horizontal gradients of an image; zero on its border.
pub open spec fn gradient_x(g: Grid<u8>) -> Grid<i16> {
    grid_of(
        g.width,
        g.height,
        |x: int, y: int|
            if is_interior(g.width, g.height, x, y) {
                scharr_x(g, x, y) as i16
            } else {
                0i16
            },
    )
}

/// Vertical gradients of an image; zero on its border.
pub open spec fn gradient_y(g: Grid<u8>) -> Grid<i16> {
    grid_of(
        g.width,
        g.height,
        |x: int, y: int|
            if is_interior(g.width, g.height, x, y) {
                scharr_y(g, x, y) as i16
            } else {
                0i16
            },
    )
}

/// A plane of which the interior places before sample `n` hold `f` and the
/// others are those of `old`.
pub open spec fn filled_until(
    old: Grid<i16>,
    f: spec_fn(int, int) -> i16,
    n: int,
) -> Grid<i16> {
    Grid {
        width: old.width,
        height: old.height,
        samples: Seq::new(
            old.samples.len(),
            |i: int|
                if i < n && i < old.width * old.height && is_interior(
                    old.width,
                    old.height,
                    i % old.width,
                    i / old.width,
                ) {
                    f(i % old.width, i / old.width)
                } else {
                    old.samples[i]
                },
        ),
    }
}

/// A plane whose interior holds `f` and whose other samples are those of `old`.
pub open spec fn with_interior(old: Grid<i16>, f: spec_fn(int, int) -> i16) -> Grid<i16> {
    filled_until(old, f, old.width * old.height)
}

/// A kernel's weighted sum of the first `n` of the nine pixels about a place.
pub open spec fn weighted_sum(g: Grid<u8>, kernel: Seq<i32>, x: int, y: int, n: int) -> int
    decreases n,
{
    if n <= 0 {
        0
    } else {
        weighted_sum(g, kernel, x, y, n - 1) + g.at(x + (n - 1) % 3 - 1, y + (n - 1) / 3 - 1)
            * kernel[n - 1]
    }
}

/// The 3 by 3 correlation of an image with a kernel.
pub open spec fn correlation(g: Grid<u8>, kernel: Seq<i32>, x: int, y: int) -> int {
    weighted_sum(g, kernel, x, y, 9)
}

/// The horizontal Scharr kernel.
pub const HORIZONTAL_SCHARR_3X3: [i32; 9] = [-3, 0, 3, -10, 0, 10, -3, 0, 3];

/// The vertical Scharr kernel.
pub const VERTICAL_SCHARR_3X3: [i32; 9] = [-3, -10, -3, 0, 0, 0, 3, 10, 3];

/// The Scharr kernels give the Scharr derivatives.
pub proof fn lemma_scharr_kernels(g: Grid<u8>, x: int, y: int)
    ensures
        correlation(g, HORIZONTAL_SCHARR_3X3@, x, y) == scharr_x(g, x, y),
        correlation(g, VERTICAL_SCHARR_3X3@, x, y) == scharr_y(g, x, y),
{
    let h = HORIZONTAL_SCHARR_3X3@;
    let v = VERTICAL_SCHARR_3X3@;
    lemma_weighted_terms(g, h, x, y);
    lemma_weighted_terms(g, v, x, y);
    assert(g.at(x - 1, y - 1) * h[0] + g.at(x, y - 1) * h[1] + g.at(x + 1, y - 1) * h[2]
        + g.at(x - 1, y) * h[3] + g.at(x, y) * h[4] + g.at(x + 1, y) * h[5]
        + g.at(x - 1, y + 1) * h[6] + g.at(x, y + 1) * h[7] + g.at(x + 1, y + 1) * h[8]
        == scharr_x(g, x, y)) by (nonlinear_arith)
        requires
            h[0] == -3,
            h[1] == 0,
            h[2] == 3,
            h[3] == -10,
            h[4] == 0,
            h[5] == 10,
            h[6] == -3,
            h[7] == 0,
            h[8] == 3,
    ;
    assert(g.at(x - 1, y - 1) * v[0] + g.at(x, y - 1) * v[1] + g.at(x + 1, y - 1) * v[2]
        + g.at(x - 1, y) * v[3] + g.at(x, y) * v[4] + g.at(x + 1, y) * v[5]
        + g.at(x - 1, y + 1) * v[6] + g.at(x, y + 1) * v[7] + g.at(x + 1, y + 1) * v[8]
        == scharr_y(g, x, y)) by (nonlinear_arith)
        requires
            v[0] == -3,
            v[1] == -10,
            v[2] == -3,
            v[3] == 0,
            v[4] == 0,
            v[5] == 0,
            v[6] == 3,
            v[7] == 10,
            v[8] == 3,
    ;
}

/// The nine terms of a correlation.
proof fn lemma_weighted_terms(g: Grid<u8>, k: Seq<i32>, x: int, y: int)
    ensures
        correlation(g, k, x, y)
            == g.at(x - 1, y - 1) * k[0] + g.at(x, y - 1) * k[1] + g.at(x + 1, y - 1) * k[2]
            + g.at(x - 1, y) * k[3] + g.at(x, y) * k[4] + g.at(x + 1, y) * k[5]
            + g.at(x - 1, y + 1) * k[6] + g.at(x, y + 1) * k[7] + g.at(x + 1, y + 1) * k[8],
{
    reveal_with_fuel(weighted_sum, 10);
}

/// A Scharr derivative of 8-bit samples fits 16 bits.
pub proof fn lemma_scharr_bounds(g: Grid<u8>, x: int, y: int)
    ensures
        -4080 <= scharr_x(g, x, y) <= 4080,
        -4080 <= scharr_y(g, x, y) <= 4080,
{
}

/// Every gradient is within the bounds of the Scharr derivatives.
pub proof fn lemma_gradient_bounds(g: Grid<u8>)
    requires
        0 <= g.width,
    ensures
        forall|i: int|
            0 <= i < g.width * g.height ==> -4080 <= #[trigger] gradient_x(g).samples[i] <= 4080,
        forall|i: int|
            0 <= i < g.width * g.height ==> -4080 <= #[trigger] gradient_y(g).samples[i] <= 4080,
{
    assert forall|i: int| 0 <= i < g.width * g.height implies -4080 <= #[trigger] gradient_x(
        g,
    ).samples[i] <= 4080 by {
        lemma_scharr_bounds(g, i % g.width, i / g.width);
    }
    assert forall|i: int| 0 <= i < g.width * g.height implies -4080 <= #[trigger] gradient_y(
        g,
    ).samples[i] <= 4080 by {
        lemma_scharr_bounds(g, i % g.width, i / g.width);
    }
}

proof fn lemma_filled_step(old: Grid<i16>, f: spec_fn(int, int) -> i16, x: int, y: int)
    requires
        old.is_complete(),
        is_interior(old.width, old.height, x, y),
    ensures
        filled_until(old, f, y * old.width + x + 1).samples == filled_until(
            old,
            f,
            y * old.width + x,
        ).samples.update(y * old.width + x, f(x, y)),
{
    lemma_index(old.width, old.height, x, y);
    let n = y * old.width + x;
    assert(filled_until(old, f, n + 1).samples =~= filled_until(old, f, n).samples.update(
        n,
        f(x, y),
    ));
}

/// Nothing changes between the interior of a row and that of the next.
proof fn lemma_filled_skip(old: Grid<i16>, f: spec_fn(int, int) -> i16, y: int)
    requires
        old.is_complete(),
        3 <= old.width,
        0 <= y < old.height,
    ensures
        filled_until(old, f, (y + 1) * old.width + 1) == filled_until(
            old,
            f,
            y * old.width + old.width - 1,
        ),
{
    let w = old.width;
    let n = y * w + w - 1;
    assert((y + 1) * w + 1 == n + 2) by (nonlinear_arith)
        requires
            n == y * w + w - 1,
    ;
    lemma_index(w, old.height, w - 1, y);
    if y + 1 < old.height {
        lemma_index(w, old.height, 0, y + 1);
    } else {
        assert(w * old.height == y * w + w) by (nonlinear_arith)
            requires
                old.height == y + 1,
        ;
    }
    assert(filled_until(old, f, n + 2).samples =~= filled_until(old, f, n).samples);
}

/// No interior place comes before the second row.
proof fn lemma_filled_start(old: Grid<i16>, f: spec_fn(int, int) -> i16)
    requires
        old.is_complete(),
        3 <= old.width,
    ensures
        filled_until(old, f, old.width + 1) == old,
{
    assert forall|i: int| 0 <= i < old.samples.len() implies filled_until(
        old,
        f,
        old.width + 1,
    ).samples[i] == old.samples[i] by {
        if i < old.width + 1 && i < old.width * old.height {
            lemma_place(old.width, old.height, i);
            if i < old.width {
                vstd::arithmetic::div_mod::lemma_basic_div(i, old.width);
            } else {
                vstd::arithmetic::div_mod::lemma_fundamental_div_mod_converse(i, old.width, 1, 0);
            }
        }
    }
    assert(filled_until(old, f, old.width + 1).samples =~= old.samples);
}

/// No interior place comes after the interior of the last row but one.
proof fn lemma_filled_end(old: Grid<i16>, f: spec_fn(int, int) -> i16)
    requires
        old.is_complete(),
        3 <= old.width,
        3 <= old.height,
    ensures
        filled_until(old, f, (old.height - 1) * old.width + 1) == with_interior(old, f),
{
    let w = old.width;
    let h = old.height;
    let n = (h - 1) * w + 1;
    assert(n <= w * h) by (nonlinear_arith)
        requires
            n == (h - 1) * w + 1,
            w >= 1,
    ;
    assert forall|i: int| 0 <= i < old.samples.len() implies filled_until(old, f, n).samples[i]
        == with_interior(old, f).samples[i] by {
        if n <= i < w * h {
            lemma_place(w, h, i);
            let y = i / w;
            assert(y >= h - 1) by (nonlinear_arith)
                requires
                    i == y * w + i % w,
                    0 <= i % w < w,
                    i >= (h - 1) * w + 1,
            ;
        }
    }
    assert(filled_until(old, f, n).samples =~= with_interior(old, f).samples);
}

/// A plane without interior stays as it is.
proof fn lemma_no_interior(old: Grid<i16>, f: spec_fn(int, int) -> i16)
    requires
        old.is_complete(),
        old.width < 3 || old.height < 3,
    ensures
        with_interior(old, f) == old,
{
    assert forall|i: int| 0 <= i < old.samples.len() implies with_interior(old, f).samples[i]
        == old.samples[i] by {
        if i < old.width * old.height {
            lemma_place(old.width, old.height, i);
        }
    }
    assert(with_interior(old, f).samples =~= old.samples);
}

/// Gradients can replace those of an image of the same dimensions without
/// touching the border.
pub proof fn lemma_gradients_replaced(g: Grid<u8>, before: Grid<u8>)
    requires
        g.is_exact(),
        before.width == g.width,
        before.height == g.height,
    ensures
        with_interior(gradient_x(before), |x: int, y: int| scharr_x(g, x, y) as i16) == gradient_x(
            g,
        ),
        with_interior(gradient_y(before), |x: int, y: int| scharr_y(g, x, y) as i16) == gradient_y(
            g,
        ),
{
    let fx = |x: int, y: int| scharr_x(g, x, y) as i16;
    let fy = |x: int, y: int| scharr_y(g, x, y) as i16;
    assert(with_interior(gradient_x(before), fx).samples =~= gradient_x(g).samples);
    assert(with_interior(gradient_y(before), fy).samples =~= gradient_y(g).samples);
}

/// An image without interior has no gradients.
pub proof fn lemma_tiny_gradients(g: Grid<u8>)
    requires
        g.is_exact(),
        g.width < 3 || g.height < 3,
    ensures
        gradient_x(g) == uniform(g.width, g.height, 0i16),
        gradient_y(g) == uniform(g.width, g.height, 0i16),
{
    assert forall|i: int| 0 <= i < g.width * g.height implies gradient_x(g).samples[i] == 0
        && gradient_y(g).samples[i] == 0 by {
        lemma_place(g.width, g.height, i);
    }
    assert(gradient_x(g).samples =~= uniform(g.width, g.height, 0i16).samples);
    assert(gradient_y(g).samples =~= uniform(g.width, g.height, 0i16).samples);
}

/// The Scharr kernels, written to planes of zeros, give the gradients.
pub proof fn lemma_kernel_gradients(g: Grid<u8>)
    requires
        g.is_exact(),
    ensures
        with_interior(
            uniform(g.width, g.height, 0i16),
            |x: int, y: int| correlation(g, HORIZONTAL_SCHARR_3X3@, x, y) as i16,
        ) == gradient_x(g),
        with_interior(
            uniform(g.width, g.height, 0i16),
            |x: int, y: int| correlation(g, VERTICAL_SCHARR_3X3@, x, y) as i16,
        ) == gradient_y(g),
{
    let zeros = uniform(g.width, g.height, 0i16);
    let fx = |x: int, y: int| correlation(g, HORIZONTAL_SCHARR_3X3@, x, y) as i16;
    let fy = |x: int, y: int| correlation(g, VERTICAL_SCHARR_3X3@, x, y) as i16;
    assert forall|i: int| 0 <= i < g.width * g.height implies with_interior(zeros, fx).samples[i]
        == gradient_x(g).samples[i] && with_interior(zeros, fy).samples[i] == gradient_y(
        g,
    ).samples[i] by {
        lemma_scharr_kernels(g, i % g.width, i / g.width);
    }
    assert(with_interior(zeros, fx).samples =~= gradient_x(g).samples);
    assert(with_interior(zeros, fy).samples =~= gradient_y(g).samples);
}

/// A uniform image has no gradients.
pub proof fn lemma_uniform_gradients(width: int, height: int, v: u8)
    requires
        0 <= width,
        0 <= height,
    ensures
        gradient_x(uniform(width, height, v)) == uniform(width, height, 0i16),
        gradient_y(uniform(width, height, v)) == uniform(width, height, 0i16),
{
    let g = uniform(width, height, v);
    assert forall|i: int| 0 <= i < width * height implies gradient_x(g).samples[i] == 0
        && gradient_y(g).samples[i] == 0 by {
        lemma_place(width, height, i);
        let x = i % width;
        let y = i / width;
        if is_interior(width, height, x, y) {
            lemma_index(width, height, x - 1, y - 1);
            lemma_index(width, height, x, y - 1);
            lemma_index(width, height, x + 1, y - 1);
            lemma_index(width, height, x - 1, y);
            lemma_index(width, height, x + 1, y);
            lemma_index(width, height, x - 1, y + 1);
            lemma_index(width, height, x, y + 1);
            lemma_index(width, height, x + 1, y + 1);
        }
    }
    assert(gradient_x(g).samples =~= uniform(width, height, 0i16).samples);
    assert(gradient_y(g).samples =~= uniform(width, height, 0i16).samples);
}

/// Compute gradients into planes of the image's dimensions, whatever they
/// held before.
pub fn compute_gradients_into(
    image: &FlatSamples<'_>,
    grad_x: &mut GradPlane,
    grad_y: &mut GradPlane,
)
    requires
        image.is_valid(),
        plane_size(*old(grad_x)) == (image.layout.width, image.layout.height),
        plane_size(*old(grad_y)) == (image.layout.width, image.layout.height),
        plane(*old(grad_x)).is_exact(),
        plane(*old(grad_y)).is_exact(),
    ensures
        plane(*final(grad_x)) == gradient_x(image.grid()),
        plane(*final(grad_y)) == gradient_y(image.grid()),
        plane_size(*final(grad_x)) == (image.layout.width, image.layout.height),
        plane_size(*final(grad_y)) == (image.layout.width, image.layout.height),
{
    plane_fill(grad_x, 0);
    plane_fill(grad_y, 0);
    let ghost zero_x = plane(*grad_x);
    let ghost zero_y = plane(*grad_y);
    compute_gradients_into_dispatch(image, grad_x, grad_y);
    proof {
        let g = image.grid();
        let fx = |x: int, y: int| scharr_x(g, x, y) as i16;
        let fy = |x: int, y: int| scharr_y(g, x, y) as i16;
        assert(with_interior(zero_x, fx).samples =~= gradient_x(g).samples);
        assert(with_interior(zero_y, fy).samples =~= gradient_y(g).samples);
    }
}

/// Like [`compute_gradients_into`], but the places on the border are left as
/// they are: zero in a plane that was allocated and then only written here.
pub fn compute_gradients_into_no_zero(
    image: &FlatSamples<'_>,
    grad_x: &mut GradPlane,
    grad_y: &mut GradPlane,
)
    requires
        image.is_valid(),
        plane_size(*old(grad_x)) == (image.layout.width, image.layout.height),
        plane_size(*old(grad_y)) == (image.layout.width, image.layout.height),
    ensures
        plane(*final(grad_x)) == with_interior(
            plane(*old(grad_x)),
            |x: int, y: int| scharr_x(image.grid(), x, y) as i16,
        ),
        plane(*final(grad_y)) == with_interior(
            plane(*old(grad_y)),
            |x: int, y: int| scharr_y(image.grid(), x, y) as i16,
        ),
        plane_size(*final(grad_x)) == (image.layout.width, image.layout.height),
        plane_size(*final(grad_y)) == (image.layout.width, image.layout.height),
{
    compute_gradients_into_dispatch(image, grad_x, grad_y);
}

fn compute_gradients_into_dispatch(
    image: &FlatSamples<'_>,
    grad_x: &mut GradPlane,
    grad_y: &mut GradPlane,
)
    requires
        image.is_valid(),
        plane_size(*old(grad_x)) == (image.layout.width, image.layout.height),
        plane_size(*old(grad_y)) == (image.layout.width, image.layout.height),
    ensures
        plane(*final(grad_x)) == with_interior(
            plane(*old(grad_x)),
            |x: int, y: int| scharr_x(image.grid(), x, y) as i16,
        ),
        plane(*final(grad_y)) == with_interior(
            plane(*old(grad_y)),
            |x: int, y: int| scharr_y(image.grid(), x, y) as i16,
        ),
        plane_size(*final(grad_x)) == (image.layout.width, image.layout.height),
        plane_size(*final(grad_y)) == (image.layout.width, image.layout.height),
{
    let width: u32 = image.layout.width;
    let height: u32 = image.layout.height;
    let row_stride: usize = image.layout.height_stride;
    let src: &[u8] = image.samples;
    assert(src@.len() == src.len());
    let (_, _) = plane_dimensions(grad_x);
    let (_, _) = plane_dimensions(grad_y);
    let ghost g = image.grid();
    let ghost fx = |x: int, y: int| scharr_x(g, x, y) as i16;
    let ghost fy = |x: int, y: int| scharr_y(g, x, y) as i16;
    let ghost old_x = plane(*grad_x);
    let ghost old_y = plane(*grad_y);
    if width < 3 || height < 3 {
        proof {
            lemma_no_interior(old_x, fx);
            lemma_no_interior(old_y, fy);
        }
        return;
    }
    proof {
        lemma_filled_start(old_x, fx);
        lemma_filled_start(old_y, fy);
    }
    let mut y: u32 = 1;
    while y < height - 1
        invariant
            image.is_valid(),
            width == image.layout.width,
            height == image.layout.height,
            row_stride == image.layout.height_stride,
            src@ == image.samples@,
            src@.len() == src.len(),
            3 <= width,
            3 <= height,
            1 <= y <= height - 1,
            g == image.grid(),
            fx == (|x: int, y: int| scharr_x(g, x, y) as i16),
            fy == (|x: int, y: int| scharr_y(g, x, y) as i16),
            old_x.is_complete(),
            old_y.is_complete(),
            old_x.width == width,
            old_x.height == height,
            old_y.width == width,
            old_y.height == height,
            plane_size(*grad_x) == (width, height),
            plane_size(*grad_y) == (width, height),
            plane(*grad_x) == filled_until(old_x, fx, y * width + 1),
            plane(*grad_y) == filled_until(old_y, fy, y * width + 1),
        decreases height - y,
    {
        let mut x: u32 = 1;
        while x < width - 1
            invariant
                image.is_valid(),
                width == image.layout.width,
                height == image.layout.height,
                row_stride == image.layout.height_stride,
                src@ == image.samples@,
                src@.len() == src.len(),
                3 <= width,
                3 <= height,
                1 <= y < height - 1,
                1 <= x <= width - 1,
                g == image.grid(),
                fx == (|x: int, y: int| scharr_x(g, x, y) as i16),
                fy == (|x: int, y: int| scharr_y(g, x, y) as i16),
                old_x.is_complete(),
                old_y.is_complete(),
                old_x.width == width,
                old_x.height == height,
                old_y.width == width,
                old_y.height == height,
                plane_size(*grad_x) == (width, height),
                plane_size(*grad_y) == (width, height),
                plane(*grad_x) == filled_until(old_x, fx, y * width + x),
                plane(*grad_y) == filled_until(old_y, fy, y * width + x),
            decreases width - x,
        {
            proof {
                lemma_sample_in_buffer(*image, x as int - 1, y as int - 1);
                lemma_sample_in_buffer(*image, x as int, y as int - 1);
                lemma_sample_in_buffer(*image, x as int + 1, y as int - 1);
                lemma_sample_in_buffer(*image, x as int - 1, y as int);
                lemma_sample_in_buffer(*image, x as int + 1, y as int);
                lemma_sample_in_buffer(*image, x as int - 1, y as int + 1);
                lemma_sample_in_buffer(*image, x as int, y as int + 1);
                lemma_sample_in_buffer(*image, x as int + 1, y as int + 1);
                lemma_scharr_bounds(g, x as int, y as int);
                lemma_filled_step(old_x, fx, x as int, y as int);
                lemma_filled_step(old_y, fy, x as int, y as int);
            }
            let top: usize = (y as usize - 1) * row_stride + x as usize;
            let mid: usize = y as usize * row_stride + x as usize;
            let bottom: usize = (y as usize + 1) * row_stride + x as usize;
            let gx: i32 = 3 * ((src[top + 1] as i32 + src[bottom + 1] as i32) - (src[top - 1] as i32
                + src[bottom - 1] as i32)) + 10 * (src[mid + 1] as i32 - src[mid - 1] as i32);
            let gy: i32 = 3 * ((src[bottom - 1] as i32 + src[bottom + 1] as i32) - (src[top
                - 1] as i32 + src[top + 1] as i32)) + 10 * (src[bottom] as i32 - src[top] as i32);
            plane_put(grad_x, x, y, gx as i16);
            plane_put(grad_y, x, y, gy as i16);
            x = x + 1;
        }
        proof {
            lemma_filled_skip(old_x, fx, y as int);
            lemma_filled_skip(old_y, fy, y as int);
        }
        y = y + 1;
    }
    proof {
        lemma_filled_end(old_x, fx);
        lemma_filled_end(old_y, fy);
    }
}

/// Gradients from two 3 by 3 kernels, given row by row. Sums beyond 16 bits
/// are truncated. The places on the border are left as they are.
pub fn compute_gradients_manual_into(
    image: &FlatSamples<'_>,
    kernel_x: &[i32; 9],
    kernel_y: &[i32; 9],
    grad_x: &mut GradPlane,
    grad_y: &mut GradPlane,
)
    requires
        image.is_valid(),
        plane_size(*old(grad_x)) == (image.layout.width, image.layout.height),
        plane_size(*old(grad_y)) == (image.layout.width, image.layout.height),
    ensures
        plane(*final(grad_x)) == with_interior(
            plane(*old(grad_x)),
            |x: int, y: int| correlation(image.grid(), kernel_x@, x, y) as i16,
        ),
        plane(*final(grad_y)) == with_interior(
            plane(*old(grad_y)),
            |x: int, y: int| correlation(image.grid(), kernel_y@, x, y) as i16,
        ),
        plane_size(*final(grad_x)) == (image.layout.width, image.layout.height),
        plane_size(*final(grad_y)) == (image.layout.width, image.layout.height),
{
    let width: u32 = image.layout.width;
    let height: u32 = image.layout.height;
    let (_, _) = plane_dimensions(grad_x);
    let (_, _) = plane_dimensions(grad_y);
    let ghost g = image.grid();
    let ghost fx = |x: int, y: int| correlation(g, kernel_x@, x, y) as i16;
    let ghost fy = |x: int, y: int| correlation(g, kernel_y@, x, y) as i16;
    let ghost old_x = plane(*grad_x);
    let ghost old_y = plane(*grad_y);
    if width < 3 || height < 3 {
        proof {
            lemma_no_interior(old_x, fx);
            lemma_no_interior(old_y, fy);
        }
        return;
    }
    proof {
        lemma_filled_start(old_x, fx);
        lemma_filled_start(old_y, fy);
    }
    let mut y: u32 = 1;
    while y < height - 1
        invariant
            image.is_valid(),
            width == image.layout.width,
            height == image.layout.height,
            3 <= width,
            3 <= height,
            1 <= y <= height - 1,
            g == image.grid(),
            fx == (|x: int, y: int| correlation(g, kernel_x@, x, y) as i16),
            fy == (|x: int, y: int| correlation(g, kernel_y@, x, y) as i16),
            old_x.is_complete(),
            old_y.is_complete(),
            old_x.width == width,
            old_x.height == height,
            old_y.width == width,
            old_y.height == height,
            plane_size(*grad_x) == (width, height),
            plane_size(*grad_y) == (width, height),
            plane(*grad_x) == filled_until(old_x, fx, y * width + 1),
            plane(*grad_y) == filled_until(old_y, fy, y * width + 1),
        decreases height - y,
    {
        let mut x: u32 = 1;
        while x < width - 1
            invariant
                image.is_valid(),
                width == image.layout.width,
                height == image.layout.height,
                3 <= width,
                3 <= height,
                1 <= y < height - 1,
                1 <= x <= width - 1,
                g == image.grid(),
                fx == (|x: int, y: int| correlation(g, kernel_x@, x, y) as i16),
                fy == (|x: int, y: int| correlation(g, kernel_y@, x, y) as i16),
                old_x.is_complete(),
                old_y.is_complete(),
                old_x.width == width,
                old_x.height == height,
                old_y.width == width,
                old_y.height == height,
                plane_size(*grad_x) == (width, height),
                plane_size(*grad_y) == (width, height),
                plane(*grad_x) == filled_until(old_x, fx, y * width + x),
                plane(*grad_y) == filled_until(old_y, fy, y * width + x),
            decreases width - x,
        {
            let gx: i64 = correlate(image, kernel_x, x, y);
            let gy: i64 = correlate(image, kernel_y, x, y);
            proof {
                lemma_filled_step(old_x, fx, x as int, y as int);
                lemma_filled_step(old_y, fy, x as int, y as int);
            }
            plane_put(grad_x, x, y, #[verifier::truncate] (gx as i16));
            plane_put(grad_y, x, y, #[verifier::truncate] (gy as i16));
            x = x + 1;
        }
        proof {
            lemma_filled_skip(old_x, fx, y as int);
            lemma_filled_skip(old_y, fy, y as int);
        }
        y = y + 1;
    }
    proof {
        lemma_filled_end(old_x, fx);
        lemma_filled_end(old_y, fy);
    }
}

/// The correlation of an image with a kernel at an interior pixel.
fn correlate(image: &FlatSamples<'_>, kernel: &[i32; 9], x: u32, y: u32) -> (sum: i64)
    requires
        image.is_valid(),
        is_interior(image.layout.width as int, image.layout.height as int, x as int, y as int),
    ensures
        sum == correlation(image.grid(), kernel@, x as int, y as int),
{
    let row_stride: usize = image.layout.height_stride;
    let src: &[u8] = image.samples;
    assert(src@.len() == src.len());
    let ghost g = image.grid();
    let mut sum: i64 = 0;
    let mut ky: u32 = 0;
    while ky < 3
        invariant
            image.is_valid(),
            is_interior(image.layout.width as int, image.layout.height as int, x as int, y as int),
            row_stride == image.layout.height_stride,
            src@ == image.samples@,
            src@.len() == src.len(),
            g == image.grid(),
            ky <= 3,
            sum == weighted_sum(g, kernel@, x as int, y as int, 3 * ky),
            -0x1_0000_0000_0000 * ky <= sum <= 0x1_0000_0000_0000 * ky,
        decreases 3 - ky,
    {
        let mut kx: u32 = 0;
        while kx < 3
            invariant
                image.is_valid(),
                is_interior(
                    image.layout.width as int,
                    image.layout.height as int,
                    x as int,
                    y as int,
                ),
                row_stride == image.layout.height_stride,
                src@ == image.samples@,
                src@.len() == src.len(),
                g == image.grid(),
                ky < 3,
                kx <= 3,
                sum == weighted_sum(g, kernel@, x as int, y as int, 3 * ky + kx),
                -0x1_0000_0000_0000 * ky - 0x80_0000_0000 * kx <= sum <= 0x1_0000_0000_0000 * ky
                    + 0x80_0000_0000 * kx,
            decreases 3 - kx,
        {
            let sx: usize = (x + kx - 1) as usize;
            let sy: usize = (y + ky - 1) as usize;
            proof {
                lemma_sample_in_buffer(*image, sx as int, sy as int);
                assert((3 * ky + kx) % 3 == kx);
                assert((3 * ky + kx) / 3 == ky);
            }
            let pixel: i64 = src[sy * row_stride + sx] as i64;
            let weight: i64 = kernel[(ky * 3 + kx) as usize] as i64;
            assert(-0x80_0000_0000 <= pixel * weight <= 0x80_0000_0000) by (nonlinear_arith)
                requires
                    0 <= pixel <= 255,
                    -0x8000_0000 <= weight <= 0x7fff_ffff,
            ;
            sum = sum + pixel * weight;
            kx = kx + 1;
        }
        ky = ky + 1;
    }
    sum
}

/// Gradients at one place.
proof fn lemma_gradients_at(g: Grid<u8>, x: int, y: int)
    requires
        0 <= x < g.width,
        0 <= y < g.height,
    ensures
        gradient_x(g).at(x, y) == if is_interior(g.width, g.height, x, y) {
            scharr_x(g, x, y)
        } else {
            0
        },
        gradient_y(g).at(x, y) == if is_interior(g.width, g.height, x, y) {
            scharr_y(g, x, y)
        } else {
            0
        },
{
    lemma_index(g.width, g.height, x, y);
    lemma_scharr_bounds(g, x, y);
}

/// On a ramp the gradients are 32 times its slopes.
pub proof fn lemma_gradients_of_ramp(g: Grid<u8>, slope_x: int, slope_y: int, level: int)
    requires
        g.is_exact(),
        forall|x: int, y: int|
            0 <= x < g.width && 0 <= y < g.height ==> #[trigger] g.at(x, y) == slope_x * x + slope_y
                * y + level,
    ensures
        forall|x: int, y: int|
            1 <= x < g.width - 1 && 1 <= y < g.height - 1 ==> #[trigger] gradient_x(g).at(x, y)
                == 32 * slope_x,
        forall|x: int, y: int|
            1 <= x < g.width - 1 && 1 <= y < g.height - 1 ==> #[trigger] gradient_y(g).at(x, y)
                == 32 * slope_y,
{
    assert forall|x: int, y: int| 1 <= x < g.width - 1 && 1 <= y < g.height - 1 implies gradient_x(
        g,
    ).at(x, y) == 32 * slope_x && gradient_y(g).at(x, y) == 32 * slope_y by {
        lemma_gradients_at(g, x, y);
        assert(slope_x * (x + 1) == slope_x * x + slope_x) by (nonlinear_arith);
        assert(slope_x * (x - 1) == slope_x * x - slope_x) by (nonlinear_arith);
        assert(slope_y * (y + 1) == slope_y * y + slope_y) by (nonlinear_arith);
        assert(slope_y * (y - 1) == slope_y * y - slope_y) by (nonlinear_arith);
    }
}

/// The border of an image has no gradients.
pub proof fn lemma_border_gradients(g: Grid<u8>, x: int, y: int)
    requires
        g.contains(x, y),
        x == 0 || y == 0 || x == g.width - 1 || y == g.height - 1,
    ensures
        gradient_x(g).at(x, y) == 0,
        gradient_y(g).at(x, y) == 0,
{
    lemma_gradients_at(g, x, y);
}

/// A pixel counts in the gradients of its eight neighbours, by its side and
/// most in line with it, and in no others.
pub proof fn lemma_gradient_of_pixel(
    g: Grid<u8>,
    h: Grid<u8>,
    px: int,
    py: int,
    x: int,
    y: int,
)
    requires
        g.width == h.width,
        g.height == h.height,
        1 <= x < g.width - 1,
        1 <= y < g.height - 1,
        forall|i: int, j: int|
            g.contains(i, j) && !(i == px && j == py) ==> #[trigger] g.at(i, j) == h.at(i, j),
    ensures
        ({
            let change = g.at(px, py) - h.at(px, py);
            let i = px - x;
            let j = py - y;
            let near = -1 <= i <= 1 && -1 <= j <= 1;
            &&& gradient_x(g).at(x, y) - gradient_x(h).at(x, y) == if !near || i == 0 {
                0
            } else if j == 0 {
                10 * i * change
            } else {
                3 * i * change
            }
            &&& gradient_y(g).at(x, y) - gradient_y(h).at(x, y) == if !near || j == 0 {
                0
            } else if i == 0 {
                10 * j * change
            } else {
                3 * j * change
            }
        }),
{
    lemma_gradients_at(g, x, y);
    lemma_gradients_at(h, x, y);
    assert(forall|i: int, j: int|
        x - 1 <= i <= x + 1 && y - 1 <= j <= y + 1 && !(i == px && j == py) ==> #[trigger] g.at(
            i,
            j,
        ) == h.at(i, j));
    let change = g.at(px, py) - h.at(px, py);
    let i = px - x;
    let j = py - y;
    if -1 <= i <= 1 && -1 <= j <= 1 {
        assert(10 * i * change == if i == 1 {
            10 * change
        } else if i == -1 {
            -10 * change
        } else {
            0
        }) by (nonlinear_arith)
            requires
                -1 <= i <= 1,
        ;
        assert(3 * i * change == if i == 1 {
            3 * change
        } else if i == -1 {
            -3 * change
        } else {
            0
        }) by (nonlinear_arith)
            requires
                -1 <= i <= 1,
        ;
        assert(10 * j * change == if j == 1 {
            10 * change
        } else if j == -1 {
            -10 * change
        } else {
            0
        }) by (nonlinear_arith)
            requires
                -1 <= j <= 1,
        ;
        assert(3 * j * change == if j == 1 {
            3 * change
        } else if j == -1 {
            -3 * change
        } else {
            0
        }) by (nonlinear_arith)
            requires
                -1 <= j <= 1,
        ;
    }
}

/// Exchanging rows and columns exchanges the two gradients.
pub proof fn lemma_gradients_transposed(g: Grid<u8>)
    requires
        g.is_exact(),
    ensures
        gradient_x(transposed(g)) == transposed(gradient_y(g)),
        gradient_y(transposed(g)) == transposed(gradient_x(g)),
{
    let t = transposed(g);
    assert forall|x: int, y: int| 0 <= x < t.width && 0 <= y < t.height implies gradient_x(t).at(
        x,
        y,
    ) == transposed(gradient_y(g)).at(x, y) && gradient_y(t).at(x, y) == transposed(
        gradient_x(g),
    ).at(x, y) by {
        lemma_gradients_at(t, x, y);
        lemma_gradients_at(g, y, x);
        lemma_grid_of_at(t.width, t.height, |x: int, y: int| gradient_y(g).at(y, x), x, y);
        lemma_grid_of_at(t.width, t.height, |x: int, y: int| gradient_x(g).at(y, x), x, y);
        if is_interior(t.width, t.height, x, y) {
            assert forall|i: int, j: int|
                x - 1 <= i <= x + 1 && y - 1 <= j <= y + 1 implies #[trigger] t.at(i, j) == g.at(
                j,
                i,
            ) by {
                lemma_grid_of_at(t.width, t.height, |x: int, y: int| g.at(y, x), i, j);
            }
        }
    }
    assert(0 <= t.width * t.height) by (nonlinear_arith)
        requires
            0 <= t.width,
            0 <= t.height,
    ;
    assert(0 <= g.width * g.height) by (nonlinear_arith)
        requires
            0 <= g.width,
            0 <= g.height,
    ;
    lemma_same_grid(gradient_x(t), transposed(gradient_y(g)));
    lemma_same_grid(gradient_y(t), transposed(gradient_x(g)));
}

} // verus!
