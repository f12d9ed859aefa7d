//! Box filter.
use vstd::prelude::*;

use crate::grid::{
    grid_of, lemma_grid_of_at, lemma_index, lemma_next_row, lemma_overwritten_all,
    lemma_overwritten_none, lemma_overwritten_step, lemma_same_grid, overwritten, transposed, Grid,
};
use crate::raster::{plane, plane_dimensions, plane_put, plane_raw, plane_size, GradPlane};

verus! {

/// Division that rounds toward zero.
pub open spec fn truncating_div(n: int, d: int) -> int {
    if n >= 0 {
        n / d
    } else {
        -((-n) / d)
    }
}

/// The coordinate in `0..size` that is nearest to `c`.
pub open spec fn clamp_to(c: int, size: int) -> int {
    if c < 0 {
        0
    } else if c >= size {
        size - 1
    } else {
        c
    }
}

/// The sample at the place of a grid that is nearest to `(x, y)`.
pub open spec fn replicated(g: Grid<i16>, x: int, y: int) -> int {
    g.at(clamp_to(x, g.width), clamp_to(y, g.height)) as int
}

/// Sum of three samples beside each other.
pub open spec fn row_sum(g: Grid<i16>, x: int, y: int) -> int {
    replicated(g, x - 1, y) + replicated(g, x, y) + replicated(g, x + 1, y)
}

/// Mean of the 3 by 3 samples about a place, rounded toward zero. Beyond the
/// border the nearest sample counts.
pub open spec fn box_mean(g: Grid<i16>, x: int, y: int) -> int {
    truncating_div(row_sum(g, x, y - 1) + row_sum(g, x, y) + row_sum(g, x, y + 1), 9)
}

/// A plane of means.
pub open spec fn box_filtered(g: Grid<i16>) -> Grid<i16> {
    grid_of(g.width, g.height, |x: int, y: int| box_mean(g, x, y) as i16)
}

/// A constant plane stays as it is.
pub proof fn lemma_box_filter_constant(g: Grid<i16>, v: i16)
    requires
        g.is_exact(),
        forall|i: int| 0 <= i < g.samples.len() ==> #[trigger] g.samples[i] == v,
    ensures
        box_filtered(g) == g,
{
    assert forall|i: int| 0 <= i < g.samples.len() implies box_filtered(g).samples[i]
        == g.samples[i] by {
        crate::grid::lemma_place(g.width, g.height, i);
        let x = i % g.width;
        let y = i / g.width;
        assert forall|cx: int, cy: int| replicated(g, cx, cy) == v by {
            lemma_index(g.width, g.height, clamp_to(cx, g.width), clamp_to(cy, g.height));
        }
        assert(row_sum(g, x, y - 1) + row_sum(g, x, y) + row_sum(g, x, y + 1) == 9 * v);
    }
    assert(box_filtered(g).samples =~= g.samples);
}

/// The coordinates of the neighbours of `c` on an axis of `size` places.
fn neighbours(c: u32, size: u32) -> (r: (usize, usize, usize))
    requires
        c < size,
    ensures
        r.0 == clamp_to(c - 1, size as int),
        r.1 == clamp_to(c as int, size as int),
        r.2 == clamp_to(c + 1, size as int),
{
    let before: u32 = if c == 0 {
        0
    } else {
        c - 1
    };
    let after: u32 = if c == size - 1 {
        c
    } else {
        c + 1
    };
    (before as usize, c as usize, after as usize)
}

fn sum_row(
    samples: &Vec<i16>,
    width: u32,
    xs: (usize, usize, usize),
    row: usize,
    Ghost(g): Ghost<Grid<i16>>,
    Ghost(x): Ghost<int>,
    Ghost(y): Ghost<int>,
) -> (sum: i32)
    requires
        g.is_exact(),
        g.width == width,
        samples@ == g.samples,
        0 <= x < width,
        0 < g.height,
        xs.0 == clamp_to(x - 1, g.width),
        xs.1 == clamp_to(x, g.width),
        xs.2 == clamp_to(x + 1, g.width),
        row == clamp_to(y, g.height),
    ensures
        sum == row_sum(g, x, y),
{
    proof {
        lemma_index(g.width, g.height, xs.0 as int, row as int);
        lemma_index(g.width, g.height, xs.1 as int, row as int);
        lemma_index(g.width, g.height, xs.2 as int, row as int);
        assert(samples@.len() == samples.len());
    }
    let start: usize = row * width as usize;
    samples[start + xs.0] as i32 + samples[start + xs.1] as i32 + samples[start + xs.2] as i32
}

/// Replace every sample by the mean of the 3 by 3 samples about it. `scratch`
/// holds a copy of the plane while it is overwritten.
pub fn box_filter_3x3_in_place(img: &mut GradPlane, scratch: &mut Vec<i16>)
    requires
        plane(*old(img)).is_exact(),
    ensures
        plane(*final(img)) == box_filtered(plane(*old(img))),
        plane_size(*final(img)) == plane_size(*old(img)),
{
    let (width, height) = plane_dimensions(img);
    let ghost g = plane(*img);
    let ghost f = |x: int, y: int| box_mean(g, x, y) as i16;
    copy_samples(plane_raw(img), scratch);
    proof {
        lemma_overwritten_none(g, f);
    }
    let mut y: u32 = 0;
    while y < height
        invariant
            g.is_exact(),
            g.width == width,
            g.height == height,
            y <= height,
            scratch@ == g.samples,
            f == (|x: int, y: int| box_mean(g, x, y) as i16),
            plane_size(*img) == (width, height),
            plane(*img) == overwritten(g, f, y * width),
        decreases height - y,
    {
        let (top, mid, bottom) = neighbours(y, height);
        let mut x: u32 = 0;
        while x < width
            invariant
                g.is_exact(),
                g.width == width,
                g.height == height,
                y < height,
                x <= width,
                top == clamp_to(y - 1, height as int),
                mid == clamp_to(y as int, height as int),
                bottom == clamp_to(y + 1, height as int),
                scratch@ == g.samples,
                f == (|x: int, y: int| box_mean(g, x, y) as i16),
                plane_size(*img) == (width, height),
                plane(*img) == overwritten(g, f, y * width + x),
            decreases width - x,
        {
            let xs: (usize, usize, usize) = neighbours(x, width);
            let above: i32 = sum_row(
                scratch,
                width,
                xs,
                top,
                Ghost(g),
                Ghost(x as int),
                Ghost(y - 1),
            );
            let beside: i32 = sum_row(
                scratch,
                width,
                xs,
                mid,
                Ghost(g),
                Ghost(x as int),
                Ghost(y as int),
            );
            let below: i32 = sum_row(
                scratch,
                width,
                xs,
                bottom,
                Ghost(g),
                Ghost(x as int),
                Ghost(y + 1),
            );
            let sum: i32 = above + beside + below;
            let mean: i32 = if sum >= 0 {
                sum / 9
            } else {
                -((-sum) / 9)
            };
            proof {
                lemma_overwritten_step(g, f, x as int, y as int);
            }
            plane_put(img, x, y, mean as i16);
            x = x + 1;
        }
        proof {
            lemma_next_row(width as int, y as int);
        }
        y = y + 1;
    }
    proof {
        lemma_overwritten_all(g, f);
    }
}

/// Make `to` a copy of `from`.
fn copy_samples(from: &Vec<i16>, to: &mut Vec<i16>)
    ensures
        final(to)@ == from@,
{
    to.clear();
    let mut i: usize = 0;
    while i < from.len()
        invariant
            i <= from@.len(),
            to@ =~= from@.subrange(0, i as int),
        decreases from@.len() - i,
    {
        to.push(from[i]);
        i = i + 1;
    }
}

/// Sum of the nine values about a place.
pub open spec fn nine_sum(f: spec_fn(int, int) -> int, x: int, y: int) -> int {
    f(x - 1, y - 1) + f(x, y - 1) + f(x + 1, y - 1) + f(x - 1, y) + f(x, y) + f(x + 1, y) + f(
        x - 1,
        y + 1,
    ) + f(x, y + 1) + f(x + 1, y + 1)
}

/// `mean` is `sum / 9`, rounded toward zero.
pub open spec fn is_ninth(mean: int, sum: int) -> bool {
    if sum >= 0 {
        9 * mean <= sum < 9 * mean + 9
    } else {
        9 * mean - 9 < sum <= 9 * mean
    }
}

/// Away from the border a filtered sample is the mean of the nine samples about
/// it, rounded toward zero.
pub proof fn lemma_box_filter_mean(g: Grid<i16>, x: int, y: int)
    requires
        g.is_exact(),
        1 <= x < g.width - 1,
        1 <= y < g.height - 1,
    ensures
        is_ninth(
            box_filtered(g).at(x, y) as int,
            nine_sum(|i: int, j: int| g.at(i, j) as int, x, y),
        ),
{
    lemma_index(g.width, g.height, x, y);
}

/// A filtered sample lies between bounds of the samples about it, on the border
/// too.
pub proof fn lemma_box_filter_local(g: Grid<i16>, x: int, y: int, low: int, high: int)
    requires
        g.is_exact(),
        g.contains(x, y),
        low <= 0 <= high,
        forall|i: int, j: int|
            g.contains(i, j) && x - 1 <= i <= x + 1 && y - 1 <= j <= y + 1 ==> low
                <= #[trigger] g.at(i, j) <= high,
    ensures
        low <= box_filtered(g).at(x, y) <= high,
{
    lemma_index(g.width, g.height, x, y);
    assert forall|i: int, j: int| x - 1 <= i <= x + 1 && y - 1 <= j <= y + 1 implies low
        <= #[trigger] replicated(g, i, j) <= high by {
        assert(low <= g.at(clamp_to(i, g.width), clamp_to(j, g.height)) <= high);
    }
}

/// Exchanging rows and columns exchanges those of the filtered plane.
pub proof fn lemma_box_filter_transposed(g: Grid<i16>)
    requires
        g.is_exact(),
    ensures
        box_filtered(transposed(g)) == transposed(box_filtered(g)),
{
    let t = transposed(g);
    assert(0 <= t.width * t.height) by (nonlinear_arith)
        requires
            0 <= t.width,
            0 <= t.height,
    ;
    assert forall|x: int, y: int| 0 <= x < t.width && 0 <= y < t.height implies box_filtered(t).at(
        x,
        y,
    ) == transposed(box_filtered(g)).at(x, y) by {
        lemma_index(t.width, t.height, x, y);
        lemma_index(g.width, g.height, y, x);
        assert forall|i: int, j: int| #[trigger] replicated(t, i, j) == replicated(g, j, i) by {
            lemma_grid_of_at(
                t.width,
                t.height,
                |x: int, y: int| g.at(y, x),
                clamp_to(i, t.width),
                clamp_to(j, t.height),
            );
        }
        assert(replicated(t, x, y) == replicated(g, y, x));
        assert(replicated(t, x - 1, y - 1) == replicated(g, y - 1, x - 1));
        assert(replicated(t, x - 1, y) == replicated(g, y, x - 1));
        assert(replicated(t, x - 1, y + 1) == replicated(g, y + 1, x - 1));
        assert(replicated(t, x, y - 1) == replicated(g, y - 1, x));
        assert(replicated(t, x, y + 1) == replicated(g, y + 1, x));
        assert(replicated(t, x + 1, y - 1) == replicated(g, y - 1, x + 1));
        assert(replicated(t, x + 1, y) == replicated(g, y, x + 1));
        assert(replicated(t, x + 1, y + 1) == replicated(g, y + 1, x + 1));
    }
    assert(0 <= g.width * g.height) by (nonlinear_arith)
        requires
            0 <= g.width,
            0 <= g.height,
    ;
    lemma_same_grid(box_filtered(t), transposed(box_filtered(g)));
}

/// The value at the place of a plane that is nearest to `(i, j)`.
pub open spec fn nearest_value(
    f: spec_fn(int, int) -> int,
    width: int,
    height: int,
    i: int,
    j: int,
) -> int {
    f(
        if i < 0 {
            0
        } else if i > width - 1 {
            width - 1
        } else {
            i
        },
        if j < 0 {
            0
        } else if j > height - 1 {
            height - 1
        } else {
            j
        },
    )
}

/// A filtered sample is the mean of the nine samples about it, rounded toward
/// zero. On the border the nearest sample stands for one that is missing.
pub proof fn lemma_box_filter_mean_anywhere(g: Grid<i16>, x: int, y: int)
    requires
        g.is_exact(),
        g.contains(x, y),
    ensures
        is_ninth(
            box_filtered(g).at(x, y) as int,
            nine_sum(
                |i: int, j: int|
                    nearest_value(
                        |u: int, v: int| g.at(u, v) as int,
                        g.width,
                        g.height,
                        i,
                        j,
                    ),
                x,
                y,
            ),
        ),
{
    lemma_index(g.width, g.height, x, y);
}

} // verus!
