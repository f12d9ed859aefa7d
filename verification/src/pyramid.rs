//! Image pyramids.
use vstd::arithmetic::div_mod::lemma_div_denominator;
use vstd::arithmetic::power2::{lemma2_to64, lemma_pow2_pos, lemma_pow2_unfold, pow2};
use vstd::prelude::*;

use crate::flat::{lemma_packed_grid, lemma_sample_in_buffer, FlatSamples};
use crate::grid::{
    grid_of, lemma_index, lemma_next_row, lemma_overwritten_all, lemma_overwritten_none,
    lemma_overwritten_step, lemma_place, overwritten, Grid,
};
use crate::raster::{
    gray, gray_dimensions, gray_flat_samples, gray_get, gray_put, gray_size, plane, plane_size,
    uniform, GradPlane, GrayImage,
};
use crate::utils::fast_gradients::{
    compute_gradients_into_no_zero, gradient_x, gradient_y, lemma_gradients_replaced,
    lemma_uniform_gradients,
};

verus! {

/// A length after `level` halvings.
pub open spec fn halved_length(length: int, level: nat) -> int {
    length / pow2(level) as int
}

/// How many levels a pyramid has that was asked for `levels` of them. There is
/// no level below the first with a side of less than two pixels.
pub open spec fn level_count(width: int, height: int, levels: nat) -> nat
    decreases levels,
{
    if levels <= 1 {
        levels
    } else if width / 2 < 2 || height / 2 < 2 {
        1
    } else {
        1 + level_count(width / 2, height / 2, (levels - 1) as nat)
    }
}

/// Dimensions of the levels, the largest first.
pub open spec fn level_dimensions(width: int, height: int, levels: nat) -> Seq<(u32, u32)> {
    Seq::new(
        level_count(width, height, levels),
        |i: int| (halved_length(width, i as nat) as u32, halved_length(height, i as nat) as u32),
    )
}

/// A pyramid has all the levels that were asked for, unless one more level
/// would have a side of less than two pixels.
pub proof fn lemma_level_count(width: int, height: int, levels: nat)
    requires
        0 <= width,
        0 <= height,
    ensures
        level_count(width, height, levels) <= levels,
        levels > 0 ==> level_count(width, height, levels) > 0,
        forall|i: int|
            0 < i < level_count(width, height, levels) ==> #[trigger] halved_length(width, i as nat)
                >= 2 && halved_length(height, i as nat) >= 2,
        level_count(width, height, levels) < levels ==> halved_length(
            width,
            level_count(width, height, levels),
        ) < 2 || halved_length(height, level_count(width, height, levels)) < 2,
    decreases levels,
{
    lemma2_to64();
    let count = level_count(width, height, levels);
    if levels > 1 && width / 2 >= 2 && height / 2 >= 2 {
        let rest = (levels - 1) as nat;
        lemma_level_count(width / 2, height / 2, rest);
        lemma_halved_again(width, (count - 1) as nat);
        lemma_halved_again(height, (count - 1) as nat);
        assert forall|i: int| 0 < i < count implies #[trigger] halved_length(width, i as nat) >= 2
            && halved_length(height, i as nat) >= 2 by {
            lemma_halved_again(width, (i - 1) as nat);
            lemma_halved_again(height, (i - 1) as nat);
            if i > 1 {
                assert(halved_length(width / 2, (i - 1) as nat) >= 2);
            } else {
                assert(halved_length(width / 2, 0) == width / 2);
                assert(halved_length(height / 2, 0) == height / 2);
            }
        }
    }
}

/// Asking for as many levels as there are gives as many.
pub proof fn lemma_level_count_again(width: int, height: int, levels: nat)
    ensures
        level_count(width, height, level_count(width, height, levels)) == level_count(
            width,
            height,
            levels,
        ),
    decreases levels,
{
    if levels > 1 && width / 2 >= 2 && height / 2 >= 2 {
        lemma_level_count_again(width / 2, height / 2, (levels - 1) as nat);
    }
}

/// Halving first or last makes no difference.
proof fn lemma_halved_again(length: int, level: nat)
    requires
        0 <= length,
    ensures
        halved_length(length / 2, level) == halved_length(length, level + 1),
        halved_length(length, level) / 2 == halved_length(length, level + 1),
        0 <= halved_length(length, level) <= length,
{
    lemma_pow2_pos(level);
    lemma_pow2_unfold(level + 1);
    let p = pow2(level) as int;
    assert(pow2(level + 1) == 2 * p);
    lemma_div_denominator(length, 2, p);
    lemma_div_denominator(length, p, 2);
    assert(p * 2 == 2 * p) by (nonlinear_arith);
    vstd::arithmetic::div_mod::lemma_div_pos_is_pos(length, p);
    vstd::arithmetic::div_mod::lemma_div_is_ordered_by_denominator(length, 1, p);
}

/// Compute the dimensions of each pyramid level, starting at
/// `(width, height)`. Level 0 is the full resolution and each level after it
/// halves both dimensions. There are fewer than `levels` entries where a
/// halving would produce a level with either dimension < 2.
pub fn pyramid_dims(width: u32, height: u32, levels: usize) -> (dims: Vec<(u32, u32)>)
    ensures
        dims@ == level_dimensions(width as int, height as int, levels as nat),
{
    let mut dims: Vec<(u32, u32)> = Vec::new();
    let mut w: u32 = width;
    let mut h: u32 = height;
    let mut level: usize = 0;
    let ghost count = level_count(width as int, height as int, levels as nat);
    proof {
        lemma2_to64();
    }
    while level < levels
        invariant_except_break
            level <= levels,
            dims@.len() == level,
            w == halved_length(width as int, level as nat),
            h == halved_length(height as int, level as nat),
            level < levels ==> count == level + level_count(
                w as int,
                h as int,
                (levels - level) as nat,
            ),
            level == levels ==> count == level,
        invariant
            forall|i: int|
                0 <= i < dims@.len() ==> #[trigger] dims@[i] == (
                    halved_length(width as int, i as nat) as u32,
                    halved_length(height as int, i as nat) as u32,
                ),
        ensures
            dims@.len() == count,
        decreases levels - level,
    {
        dims.push((w, h));
        if level + 1 < levels {
            if w / 2 < 2 || h / 2 < 2 {
                break;
            }
        }
        proof {
            lemma_halved_again(width as int, level as nat);
            lemma_halved_again(height as int, level as nat);
        }
        w = w / 2;
        h = h / 2;
        level = level + 1;
    }
    assert(dims@ =~= level_dimensions(width as int, height as int, levels as nat));
    dims
}

/// Mean of 2 by 2 pixels, rounded down.
pub open spec fn block_mean(g: Grid<u8>, x: int, y: int) -> int {
    (g.at(2 * x, 2 * y) + g.at(2 * x + 1, 2 * y) + g.at(2 * x, 2 * y + 1) + g.at(
        2 * x + 1,
        2 * y + 1,
    )) / 4
}

/// An image of half the width and height.
pub open spec fn halved(g: Grid<u8>) -> Grid<u8> {
    grid_of(g.width / 2, g.height / 2, |x: int, y: int| block_mean(g, x, y) as u8)
}

/// An image after `level` halvings.
pub open spec fn level_of(g: Grid<u8>, level: nat) -> Grid<u8>
    decreases level,
{
    if level == 0 {
        g
    } else {
        halved(level_of(g, (level - 1) as nat))
    }
}

/// The first `count` levels of an image's pyramid.
pub open spec fn pyramid(g: Grid<u8>, count: nat) -> Seq<Grid<u8>> {
    Seq::new(count, |i: int| level_of(g, i as nat))
}

/// Images as rows of samples.
pub open spec fn grids(images: Seq<GrayImage>) -> Seq<Grid<u8>> {
    Seq::new(images.len(), |i: int| gray(images[i]))
}

/// An image without samples after its last row has a pyramid of such images,
/// each with half the width and height of the one before.
pub proof fn lemma_level_dimensions(g: Grid<u8>, level: nat)
    requires
        g.is_exact(),
    ensures
        level_of(g, level).is_exact(),
        level_of(g, level).width == halved_length(g.width, level),
        level_of(g, level).height == halved_length(g.height, level),
    decreases level,
{
    lemma2_to64();
    if level > 0 {
        let before = (level - 1) as nat;
        lemma_level_dimensions(g, before);
        lemma_halved_again(g.width, before);
        lemma_halved_again(g.height, before);
        lemma_halved_exact(level_of(g, before));
    }
}

proof fn lemma_halved_exact(g: Grid<u8>)
    requires
        g.is_exact(),
    ensures
        halved(g).is_exact(),
{
    let w = g.width / 2;
    let h = g.height / 2;
    assert(0 <= w * h) by (nonlinear_arith)
        requires
            0 <= w,
            0 <= h,
    ;
}

/// A uniform image stays uniform.
pub proof fn lemma_uniform_level(width: int, height: int, v: u8, level: nat)
    requires
        0 <= width,
        0 <= height,
    ensures
        level_of(uniform(width, height, v), level) == uniform(
            halved_length(width, level),
            halved_length(height, level),
            v,
        ),
    decreases level,
{
    lemma2_to64();
    if level > 0 {
        let before = (level - 1) as nat;
        lemma_uniform_level(width, height, v, before);
        lemma_halved_again(width, before);
        lemma_halved_again(height, before);
        let w = halved_length(width, before);
        let h = halved_length(height, before);
        let g = uniform(w, h, v);
        assert forall|i: int| 0 <= i < (w / 2) * (h / 2) implies halved(g).samples[i] == v by {
            lemma_place(w / 2, h / 2, i);
            let x = i % (w / 2);
            let y = i / (w / 2);
            lemma_index(w, h, 2 * x, 2 * y);
            lemma_index(w, h, 2 * x + 1, 2 * y);
            lemma_index(w, h, 2 * x, 2 * y + 1);
            lemma_index(w, h, 2 * x + 1, 2 * y + 1);
        }
        assert(halved(g).samples =~= uniform(w / 2, h / 2, v).samples);
    }
}

/// Reusable pyramid storage. Every level is allocated at construction;
/// [`build_pyramid`](crate::buffers::build_pyramid) overwrites the levels from
/// a new source view.
///
/// The Scharr gradients of each level are kept with it. They are computed once
/// when the pyramid is built, however many Lucas-Kanade passes start from it.
pub struct PyramidBuffer {
    levels: Vec<GrayImage>,
    grad_x: Vec<GradPlane>,
    grad_y: Vec<GradPlane>,
}

impl View for PyramidBuffer {
    type V = Seq<Grid<u8>>;

    /// The levels, full resolution first.
    closed spec fn view(&self) -> Seq<Grid<u8>> {
        grids(self.levels@)
    }
}

impl PyramidBuffer {
    /// Every level but the first is half of the one before, and the gradients
    /// belong to the levels.
    pub closed spec fn well_formed(&self) -> bool {
        &&& self.grad_x@.len() == self.levels@.len()
        &&& self.grad_y@.len() == self.levels@.len()
        &&& self.levels@.len() > 0 ==> self@ == pyramid(self@[0], self@.len())
        &&& forall|i: int|
            #![trigger self.levels@[i]]
            0 <= i < self.levels@.len() ==> self.level_is_current(i)
    }

    /// The levels are those of the pyramid of one image, and have no samples
    /// after their last rows.
    pub proof fn lemma_levels(&self)
        requires
            self.well_formed(),
        ensures
            self@.len() > 0 ==> self@ == pyramid(self@[0], self@.len()),
            forall|i: int| 0 <= i < self@.len() ==> (#[trigger] self@[i]).is_exact(),
    {
        assert forall|i: int| 0 <= i < self@.len() implies (#[trigger] self@[i]).is_exact() by {
            assert(gray(self.levels@[i]).is_exact());
        }
    }

    spec fn level_is_current(&self, i: int) -> bool {
        &&& gray(self.levels@[i]).is_exact()
        &&& plane_size(self.grad_x@[i]) == gray_size(self.levels@[i])
        &&& plane_size(self.grad_y@[i]) == gray_size(self.levels@[i])
        &&& plane(self.grad_x@[i]) == gradient_x(gray(self.levels@[i]))
        &&& plane(self.grad_y@[i]) == gradient_y(gray(self.levels@[i]))
    }

    /// Allocate `levels` black images sized `(width, height)`,
    /// `(width/2, height/2)` and so on. Where a halving brings either dimension
    /// below 2 no further levels are allocated.
    pub fn with_capacity(width: u32, height: u32, levels: usize) -> (r: PyramidBuffer)
        requires
            2 * (width * height) <= isize::MAX,
        ensures
            r.well_formed(),
            r@ == pyramid(
                uniform(width as int, height as int, 0u8),
                level_count(width as int, height as int, levels as nat),
            ),
    {
        let dims: Vec<(u32, u32)> = pyramid_dims(width, height, levels);
        let mut images: Vec<GrayImage> = Vec::new();
        let mut grad_x: Vec<GradPlane> = Vec::new();
        let mut grad_y: Vec<GradPlane> = Vec::new();
        let ghost black = uniform(width as int, height as int, 0u8);
        let mut i: usize = 0;
        while i < dims.len()
            invariant
                2 * (width * height) <= isize::MAX,
                black == uniform(width as int, height as int, 0u8),
                dims@ == level_dimensions(width as int, height as int, levels as nat),
                i <= dims@.len(),
                images@.len() == i,
                grad_x@.len() == i,
                grad_y@.len() == i,
                forall|j: int|
                    #![trigger images@[j]]
                    0 <= j < i ==> {
                        &&& gray(images@[j]) == level_of(black, j as nat)
                        &&& gray(images@[j]).is_exact()
                        &&& plane_size(grad_x@[j]) == gray_size(images@[j])
                        &&& plane_size(grad_y@[j]) == gray_size(images@[j])
                        &&& plane(grad_x@[j]) == gradient_x(gray(images@[j]))
                        &&& plane(grad_y@[j]) == gradient_y(gray(images@[j]))
                    },
            decreases dims@.len() - i,
        {
            let (w, h) = dims[i];
            proof {
                lemma_halved_again(width as int, i as nat);
                lemma_halved_again(height as int, i as nat);
                assert(w * h <= width * height) by (nonlinear_arith)
                    requires
                        0 <= w <= width,
                        0 <= h <= height,
                ;
                lemma_uniform_level(width as int, height as int, 0u8, i as nat);
                lemma_uniform_gradients(w as int, h as int, 0u8);
            }
            images.push(GrayImage::new(w, h));
            grad_x.push(GradPlane::new(w, h));
            grad_y.push(GradPlane::new(w, h));
            i = i + 1;
        }
        let r = PyramidBuffer { levels: images, grad_x, grad_y };
        proof {
            let count = level_count(width as int, height as int, levels as nat);
            assert(r@ =~= pyramid(black, count));
            assert(r@.len() > 0 ==> r@[0] == black);
            assert forall|j: int| #![trigger r.levels@[j]] 0 <= j < r.levels@.len() implies
                r.level_is_current(j) by {}
        }
        r
    }

    /// Overwrite every level from `image`, and its gradients.
    pub fn build_into(&mut self, image: &FlatSamples<'_>)
        requires
            old(self).well_formed(),
            old(self)@.len() > 0,
            image.is_valid(),
            old(self)@[0].width == image.layout.width,
            old(self)@[0].height == image.layout.height,
        ensures
            final(self).well_formed(),
            final(self)@ == pyramid(image.grid(), old(self)@.len()),
    {
        let ghost old_self = *self;
        let ghost g = image.grid();
        let ghost count = self@.len();
        proof {
            assert(old_self.level_is_current(0)) by {
                assert(old_self.levels@[0] == old_self.levels@[0]);
            }
            assert(old_self@[0] == gray(old_self.levels@[0]));
        }
        copy_rows(image, &mut self.levels[0]);
        let mut level: usize = 0;
        proof {
            assert(self.levels@ =~= old_self.levels@.update(0, self.levels@[0]));
        }
        loop
            invariant_except_break
                count == self.levels@.len(),
                level < count,
                old_self.well_formed(),
                old_self.levels@.len() == count,
                self.grad_x@.len() == count,
                self.grad_y@.len() == count,
                g.is_exact(),
                old_self@[0].width == g.width,
                old_self@[0].height == g.height,
                gray(self.levels@[level as int]) == level_of(g, level as nat),
                gray_size(self.levels@[level as int]) == gray_size(old_self.levels@[level as int]),
                forall|j: int|
                    #![trigger self.levels@[j]]
                    0 <= j < level ==> self.level_is_current(j)
                        && gray(self.levels@[j]) == level_of(g, j as nat),
                forall|j: int|
                    #![trigger self.levels@[j]]
                    level < j < count ==> self.levels@[j] == old_self.levels@[j],
                forall|j: int|
                    level <= j < count ==> #[trigger] self.grad_x@[j] == old_self.grad_x@[j]
                        && self.grad_y@[j] == old_self.grad_y@[j],
            ensures
                count == self.levels@.len(),
                self.grad_x@.len() == count,
                self.grad_y@.len() == count,
                forall|j: int|
                    #![trigger self.levels@[j]]
                    0 <= j < count ==> self.level_is_current(j)
                        && gray(self.levels@[j]) == level_of(g, j as nat),
            decreases count - level,
        {
            proof {
                lemma_level_dimensions(g, level as nat);
                assert(old_self.level_is_current(level as int)) by {
                    assert(old_self.levels@[level as int] == old_self.levels@[level as int]);
                }
                lemma_gradients_replaced(
                    gray(self.levels@[level as int]),
                    gray(old_self.levels@[level as int]),
                );
            }
            let ghost before = *self;
            let flat: FlatSamples<'_> = gray_flat_samples(&self.levels[level]);
            proof {
                lemma_packed_grid(flat);
                assert(flat.grid() == gray(self.levels@[level as int]));
            }
            compute_gradients_into_no_zero(&flat, &mut self.grad_x[level], &mut self.grad_y[level]);
            assert(self.level_is_current(level as int));
            assert forall|j: int| level < j < count implies #[trigger] self.grad_x@[j]
                == old_self.grad_x@[j] && self.grad_y@[j] == old_self.grad_y@[j] by {
                assert(before.grad_x@[j] == self.grad_x@[j]);
            }
            assert forall|j: int| #![trigger self.levels@[j]] 0 <= j < level implies
                self.level_is_current(j) by {
                assert(before.levels@[j] == self.levels@[j]);
                assert(before.level_is_current(j));
            }
            if level >= self.levels.len() - 1 {
                break;
            }
            let mut next: GrayImage = GrayImage::new(0, 0);
            let ghost middle = *self;
            std::mem::swap(&mut next, &mut self.levels[level + 1]);
            proof {
                assert(old_self.level_is_current(level as int + 1)) by {
                    assert(old_self.levels@[level as int + 1] == old_self.levels@[level as int
                        + 1]);
                }
                assert(middle.levels@[level as int + 1] == old_self.levels@[level as int + 1]);
                assert(old_self@[level as int + 1] == level_of(
                    old_self@[0],
                    (level + 1) as nat,
                ));
                assert(old_self@[level as int] == level_of(old_self@[0], level as nat));
                assert(self.levels@[level as int] == middle.levels@[level as int]);
            }
            downsample(&self.levels[level], &mut next);
            std::mem::swap(&mut next, &mut self.levels[level + 1]);
            proof {
                assert forall|j: int| #![trigger self.levels@[j]] 0 <= j <= level implies
                    self.level_is_current(j) && gray(self.levels@[j]) == level_of(g, j as nat) by {
                    assert(middle.levels@[j] == self.levels@[j]);
                    assert(middle.level_is_current(j));
                }
            }
            level = level + 1;
        }
        proof {
            assert(self@ =~= pyramid(g, count));
            assert(self@[0] == g);
        }
    }

    /// Borrow the levels, full resolution first.
    pub fn levels(&self) -> (r: &[GrayImage])
        ensures
            grids(r@) == self@,
            r@.len() == self@.len(),
            forall|i: int| 0 <= i < r@.len() ==> gray(#[trigger] r@[i]) == self@[i],
            self.well_formed() ==> forall|i: int|
                0 <= i < r@.len() ==> gray(#[trigger] r@[i]).is_exact(),
    {
        proof {
            if self.well_formed() {
                assert forall|i: int| 0 <= i < self.levels@.len() implies gray(
                    #[trigger] self.levels@[i],
                ).is_exact() by {
                    assert(self.level_is_current(i));
                }
            }
        }
        self.levels.as_slice()
    }

    /// Borrow a level's Scharr gradients.
    pub fn grad_planes(&self, level: usize) -> (r: (&GradPlane, &GradPlane))
        requires
            self.well_formed(),
            level < self@.len(),
        ensures
            plane(*r.0) == gradient_x(self@[level as int]),
            plane(*r.1) == gradient_y(self@[level as int]),
    {
        proof {
            assert(self.level_is_current(level as int)) by {
                assert(self.levels@[level as int] == self.levels@[level as int]);
            }
        }
        (&self.grad_x[level], &self.grad_y[level])
    }

    /// The levels themselves.
    pub fn into_levels(self) -> (r: Vec<GrayImage>)
        ensures
            grids(r@) == self@,
            r@.len() == self@.len(),
    {
        self.levels
    }
}

/// Copy the rows of a view, without the gaps between them.
fn copy_rows(image: &FlatSamples<'_>, dst: &mut GrayImage)
    requires
        image.is_valid(),
        gray(*old(dst)).is_exact(),
        gray_size(*old(dst)) == (image.layout.width, image.layout.height),
    ensures
        gray(*final(dst)) == image.grid(),
        gray_size(*final(dst)) == gray_size(*old(dst)),
        gray(*final(dst)).is_exact(),
{
    let width: u32 = image.layout.width;
    let height: u32 = image.layout.height;
    let row_stride: usize = image.layout.height_stride;
    let src: &[u8] = image.samples;
    assert(src@.len() == src.len());
    let ghost start = gray(*dst);
    let ghost f = |x: int, y: int| image.samples@[y * image.layout.height_stride + x];
    proof {
        lemma_overwritten_none(start, f);
    }
    let mut y: u32 = 0;
    while y < height
        invariant
            image.is_valid(),
            width == image.layout.width,
            height == image.layout.height,
            row_stride == image.layout.height_stride,
            src@ == image.samples@,
            src@.len() == src.len(),
            f == (|x: int, y: int| image.samples@[y * image.layout.height_stride + x]),
            y <= height,
            start.is_exact(),
            start.width == width,
            start.height == height,
            gray_size(*dst) == (width, height),
            gray(*dst) == overwritten(start, f, y * width),
        decreases height - y,
    {
        let mut x: u32 = 0;
        while x < width
            invariant
                image.is_valid(),
                width == image.layout.width,
                height == image.layout.height,
                row_stride == image.layout.height_stride,
                src@ == image.samples@,
                src@.len() == src.len(),
                f == (|x: int, y: int| image.samples@[y * image.layout.height_stride + x]),
                y < height,
                x <= width,
                start.is_exact(),
                start.width == width,
                start.height == height,
                gray_size(*dst) == (width, height),
                gray(*dst) == overwritten(start, f, y * width + x),
            decreases width - x,
        {
            proof {
                lemma_sample_in_buffer(*image, x as int, y as int);
                lemma_overwritten_step(start, f, x as int, y as int);
            }
            gray_put(dst, x, y, src[y as usize * row_stride + x as usize]);
            x = x + 1;
        }
        proof {
            lemma_next_row(width as int, y as int);
        }
        y = y + 1;
    }
    proof {
        lemma_overwritten_all(start, f);
    }
}

/// Halve an image by averaging blocks of 2 by 2 pixels.
fn downsample(prev: &GrayImage, curr: &mut GrayImage)
    requires
        gray(*prev).is_exact(),
        gray(*old(curr)).is_exact(),
        gray(*old(curr)).width == gray(*prev).width / 2,
        gray(*old(curr)).height == gray(*prev).height / 2,
    ensures
        gray(*final(curr)) == halved(gray(*prev)),
        gray_size(*final(curr)) == gray_size(*old(curr)),
{
    let ghost g = gray(*prev);
    let ghost start = gray(*curr);
    let ghost f = |x: int, y: int| block_mean(g, x, y) as u8;
    let (new_width, new_height) = gray_dimensions(curr);
    proof {
        lemma_overwritten_none(start, f);
    }
    let mut y: u32 = 0;
    while y < new_height
        invariant
            g == gray(*prev),
            start.is_exact(),
            start.width == g.width / 2,
            start.height == g.height / 2,
            new_width == start.width,
            new_height == start.height,
            f == (|x: int, y: int| block_mean(g, x, y) as u8),
            y <= new_height,
            gray_size(*curr) == (new_width, new_height),
            gray(*curr) == overwritten(start, f, y * new_width),
        decreases new_height - y,
    {
        let mut x: u32 = 0;
        while x < new_width
            invariant
                g == gray(*prev),
                start.is_exact(),
                start.width == g.width / 2,
                start.height == g.height / 2,
                new_width == start.width,
                new_height == start.height,
                f == (|x: int, y: int| block_mean(g, x, y) as u8),
                y < new_height,
                x <= new_width,
                gray_size(*curr) == (new_width, new_height),
                gray(*curr) == overwritten(start, f, y * new_width + x),
            decreases new_width - x,
        {
            let px: u32 = 2 * x;
            let py: u32 = 2 * y;
            let p1: u32 = gray_get(prev, px, py) as u32;
            let p2: u32 = gray_get(prev, px + 1, py) as u32;
            let p3: u32 = gray_get(prev, px, py + 1) as u32;
            let p4: u32 = gray_get(prev, px + 1, py + 1) as u32;
            let avg: u8 = ((p1 + p2 + p3 + p4) / 4) as u8;
            proof {
                lemma_overwritten_step(start, f, x as int, y as int);
            }
            gray_put(curr, x, y, avg);
            x = x + 1;
        }
        proof {
            lemma_next_row(new_width as int, y as int);
        }
        y = y + 1;
    }
    proof {
        lemma_overwritten_all(start, f);
    }
}

/// Builds a pyramid of images where each successive layer is half as large in
/// width and height.
///
/// A pixel of a layer is the average of 4 pixels of the layer before. The
/// first element is the source image.
pub fn build_pyramid(image: &GrayImage, levels: usize) -> (r: Vec<GrayImage>)
    requires
        levels > 0,
        2 * (gray_size(*image).0 * gray_size(*image).1) <= isize::MAX,
    ensures
        grids(r@) == pyramid(
            gray(*image).trimmed(),
            level_count(gray(*image).width, gray(*image).height, levels as nat),
        ),
        r@.len() == level_count(gray(*image).width, gray(*image).height, levels as nat),
{
    let (w, h) = gray_dimensions(image);
    let mut buf: PyramidBuffer = PyramidBuffer::with_capacity(w, h, levels);
    let flat: FlatSamples<'_> = gray_flat_samples(image);
    proof {
        lemma_packed_grid(flat);
        lemma_level_count(w as int, h as int, levels as nat);
    }
    buf.build_into(&flat);
    buf.into_levels()
}

/// A pixel of a halved image is the mean of the block of four pixels in its
/// place, rounded down: it lies between the least and the greatest of them.
pub proof fn lemma_halved_mean(g: Grid<u8>, x: int, y: int)
    requires
        g.is_exact(),
        0 <= x,
        0 <= y,
        2 * x + 1 < g.width,
        2 * y + 1 < g.height,
    ensures
        halved(g).contains(x, y),
        ({
            let v = halved(g).at(x, y) as int;
            let total = g.at(2 * x, 2 * y) + g.at(2 * x + 1, 2 * y) + g.at(2 * x, 2 * y + 1)
                + g.at(2 * x + 1, 2 * y + 1);
            4 * v <= total < 4 * v + 4
        }),
        ({
            let v = halved(g).at(x, y);
            ||| g.at(2 * x, 2 * y) <= v
            ||| g.at(2 * x + 1, 2 * y) <= v
            ||| g.at(2 * x, 2 * y + 1) <= v
            ||| g.at(2 * x + 1, 2 * y + 1) <= v
        }),
        ({
            let v = halved(g).at(x, y);
            ||| v <= g.at(2 * x, 2 * y)
            ||| v <= g.at(2 * x + 1, 2 * y)
            ||| v <= g.at(2 * x, 2 * y + 1)
            ||| v <= g.at(2 * x + 1, 2 * y + 1)
        }),
{
    lemma_index(g.width / 2, g.height / 2, x, y);
}

/// A level has half the width and height of the one before.
pub proof fn lemma_halved_size(g: Grid<u8>)
    requires
        g.is_exact(),
    ensures
        2 * halved(g).width <= g.width <= 2 * halved(g).width + 1,
        2 * halved(g).height <= g.height <= 2 * halved(g).height + 1,
        halved(g).is_exact(),
{
    lemma_halved_exact(g);
}

/// The first level of a pyramid is the image, and every pixel of a later level
/// is the mean of four pixels of the level before.
pub proof fn lemma_pyramid_steps(g: Grid<u8>, count: nat, i: int, x: int, y: int)
    requires
        g.is_exact(),
        0 <= i,
        i + 1 < count,
        pyramid(g, count)[i + 1].contains(x, y),
    ensures
        pyramid(g, count).len() == count,
        pyramid(g, count)[0] == g,
        ({
            let fine = pyramid(g, count)[i];
            let coarse = pyramid(g, count)[i + 1];
            let v = coarse.at(x, y) as int;
            let total = fine.at(2 * x, 2 * y) + fine.at(2 * x + 1, 2 * y) + fine.at(
                2 * x,
                2 * y + 1,
            ) + fine.at(2 * x + 1, 2 * y + 1);
            &&& 2 * coarse.width <= fine.width <= 2 * coarse.width + 1
            &&& 2 * coarse.height <= fine.height <= 2 * coarse.height + 1
            &&& fine.contains(2 * x + 1, 2 * y + 1)
            &&& 4 * v <= total < 4 * v + 4
        }),
{
    lemma_level_dimensions(g, i as nat);
    lemma_halved_size(level_of(g, i as nat));
    lemma_halved_mean(level_of(g, i as nat), x, y);
    assert(level_of(g, (i + 1) as nat) == halved(level_of(g, i as nat)));
}

/// The pixels of an image that a pixel of a level stands for lie within bounds.
pub open spec fn block_is_within(
    g: Grid<u8>,
    level: nat,
    x: int,
    y: int,
    low: u8,
    high: u8,
) -> bool {
    forall|px: int, py: int|
        x * pow2(level) <= px < (x + 1) * pow2(level) && y * pow2(level) <= py < (y + 1) * pow2(
            level,
        ) ==> low <= #[trigger] g.at(px, py) <= high
}

/// A pixel of a level lies between the bounds of the square of pixels of the
/// image that it stands for, and of no others.
pub proof fn lemma_level_local(g: Grid<u8>, level: nat, x: int, y: int, low: u8, high: u8)
    requires
        g.is_exact(),
        level_of(g, level).contains(x, y),
        block_is_within(g, level, x, y, low, high),
    ensures
        low <= level_of(g, level).at(x, y) <= high,
    decreases level,
{
    lemma2_to64();
    if level == 0 {
        assert(x * pow2(0) == x && (x + 1) * pow2(0) == x + 1 && y * pow2(0) == y && (y + 1)
            * pow2(0) == y + 1) by (nonlinear_arith)
            requires
                pow2(0) == 1,
        ;
        assert(low <= g.at(x, y) <= high);
    } else {
        let before = (level - 1) as nat;
        let fine = level_of(g, before);
        lemma_level_dimensions(g, before);
        lemma_halved_size(fine);
        lemma_halved_mean(fine, x, y);
        lemma_block_part(g, level, x, y, low, high, 0, 0);
        lemma_block_part(g, level, x, y, low, high, 1, 0);
        lemma_block_part(g, level, x, y, low, high, 0, 1);
        lemma_block_part(g, level, x, y, low, high, 1, 1);
        lemma_level_local(g, before, 2 * x, 2 * y, low, high);
        lemma_level_local(g, before, 2 * x + 1, 2 * y, low, high);
        lemma_level_local(g, before, 2 * x, 2 * y + 1, low, high);
        lemma_level_local(g, before, 2 * x + 1, 2 * y + 1, low, high);
    }
}

/// A quarter of a square of pixels is the square of a pixel one level below.
proof fn lemma_block_part(
    g: Grid<u8>,
    level: nat,
    x: int,
    y: int,
    low: u8,
    high: u8,
    i: int,
    j: int,
)
    requires
        level > 0,
        0 <= i <= 1,
        0 <= j <= 1,
        block_is_within(g, level, x, y, low, high),
    ensures
        block_is_within(g, (level - 1) as nat, 2 * x + i, 2 * y + j, low, high),
{
    let before = (level - 1) as nat;
    lemma_pow2_unfold(level);
    lemma_pow2_pos(before);
    lemma_block_range(x, i, pow2(before) as int);
    lemma_block_range(y, j, pow2(before) as int);
}

proof fn lemma_block_range(x: int, i: int, p: int)
    requires
        0 <= i <= 1,
        0 < p,
    ensures
        x * (2 * p) <= (2 * x + i) * p,
        (2 * x + i + 1) * p <= (x + 1) * (2 * p),
{
    assert(x * (2 * p) <= (2 * x + i) * p && (2 * x + i + 1) * p <= (x + 1) * (2 * p))
        by (nonlinear_arith)
        requires
            0 <= i <= 1,
            0 < p,
    ;
}

/// Two images that agree on the square of pixels that a pixel of a level
/// stands for agree in that pixel.
pub proof fn lemma_level_depends(g: Grid<u8>, h: Grid<u8>, level: nat, x: int, y: int)
    requires
        g.is_exact(),
        h.is_exact(),
        level_of(g, level).contains(x, y),
        level_of(h, level).contains(x, y),
        forall|px: int, py: int|
            x * pow2(level) <= px < (x + 1) * pow2(level) && y * pow2(level) <= py < (y + 1)
                * pow2(level) ==> #[trigger] g.at(px, py) == h.at(px, py),
    ensures
        level_of(g, level).at(x, y) == level_of(h, level).at(x, y),
    decreases level,
{
    lemma2_to64();
    if level == 0 {
        assert(x * pow2(0) == x && (x + 1) * pow2(0) == x + 1 && y * pow2(0) == y && (y + 1)
            * pow2(0) == y + 1) by (nonlinear_arith)
            requires
                pow2(0) == 1,
        ;
        assert(g.at(x, y) == h.at(x, y));
    } else {
        let before = (level - 1) as nat;
        lemma_pow2_unfold(level);
        lemma_pow2_pos(before);
        lemma_block_range(x, 0, pow2(before) as int);
        lemma_block_range(x, 1, pow2(before) as int);
        lemma_block_range(y, 0, pow2(before) as int);
        lemma_block_range(y, 1, pow2(before) as int);
        lemma_level_dimensions(g, before);
        lemma_level_dimensions(h, before);
        lemma_halved_size(level_of(g, before));
        lemma_halved_size(level_of(h, before));
        lemma_level_depends(g, h, before, 2 * x, 2 * y);
        lemma_level_depends(g, h, before, 2 * x + 1, 2 * y);
        lemma_level_depends(g, h, before, 2 * x, 2 * y + 1);
        lemma_level_depends(g, h, before, 2 * x + 1, 2 * y + 1);
        lemma_halved_mean(level_of(g, before), x, y);
        lemma_halved_mean(level_of(h, before), x, y);
    }
}

} // verus!
