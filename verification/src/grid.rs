//! Rows of samples, as a model of images and gradient planes.
use vstd::arithmetic::div_mod::{
    lemma_fundamental_div_mod, lemma_fundamental_div_mod_converse, lemma_mod_bound,
};
use vstd::prelude::*;

verus! {

/// `height` rows of `width` samples, one row after the other. Samples may
/// follow the last row.
#[verifier::ext_equal]
pub struct Grid<T> {
    pub width: int,
    pub height: int,
    pub samples: Seq<T>,
}

impl<T> Grid<T> {
    /// The sample in column `x` of row `y`.
    pub open spec fn at(self, x: int, y: int) -> T {
        self.samples[y * self.width + x]
    }

    pub open spec fn contains(self, x: int, y: int) -> bool {
        0 <= x < self.width && 0 <= y < self.height
    }

    /// Every row is there.
    pub open spec fn is_complete(self) -> bool {
        &&& 0 <= self.width <= u32::MAX
        &&& 0 <= self.height <= u32::MAX
        &&& self.width * self.height <= self.samples.len()
    }

    /// Every row is there, and nothing after the last.
    pub open spec fn is_exact(self) -> bool {
        &&& 0 <= self.width <= u32::MAX
        &&& 0 <= self.height <= u32::MAX
        &&& self.width * self.height == self.samples.len()
    }

    /// The grid without what follows the last row.
    pub open spec fn trimmed(self) -> Grid<T> {
        Grid {
            width: self.width,
            height: self.height,
            samples: self.samples.subrange(0, self.width * self.height),
        }
    }

    /// The sample at a place that need not be in the grid.
    pub open spec fn tap(self, x: int, y: int) -> Option<T> {
        if 0 <= x < self.width && 0 <= y && y * self.width + x < self.samples.len() {
            Some(self.at(x, y))
        } else {
            None
        }
    }
}

/// The grid whose sample in column `x` of row `y` is `f(x, y)`.
pub open spec fn grid_of<T>(width: int, height: int, f: spec_fn(int, int) -> T) -> Grid<T> {
    Grid {
        width,
        height,
        samples: Seq::new((width * height) as nat, |i: int| f(i % width, i / width)),
    }
}

/// Where a place of a grid stands among its samples.
pub proof fn lemma_index(width: int, height: int, x: int, y: int)
    requires
        0 <= x < width,
        0 <= y < height,
    ensures
        0 <= y * width + x < width * height,
        (y * width + x) / width == y,
        (y * width + x) % width == x,
        0 <= y * width,
{
    lemma_fundamental_div_mod_converse(y * width + x, width, y, x);
    assert(0 <= y * width + x < width * height) by (nonlinear_arith)
        requires
            0 <= x < width,
            0 <= y < height,
    ;
    assert(0 <= y * width) by (nonlinear_arith)
        requires
            0 <= width,
            0 <= y,
    ;
}

/// The place of a grid that a sample belongs to.
pub proof fn lemma_place(width: int, height: int, i: int)
    requires
        0 <= i < width * height,
        0 <= width,
    ensures
        0 < width,
        0 < height,
        0 <= i % width < width,
        0 <= i / width < height,
        i == (i / width) * width + i % width,
{
    if width == 0 {
        assert(width * height == 0) by (nonlinear_arith)
            requires
                width == 0,
        ;
    }
    lemma_fundamental_div_mod(i, width);
    lemma_mod_bound(i, width);
    let y = i / width;
    assert(width * y == y * width) by (nonlinear_arith);
    assert(0 <= y < height) by (nonlinear_arith)
        requires
            i == y * width + i % width,
            0 <= i % width < width,
            0 <= i < width * height,
    ;
}

/// Two places of a grid with one index are the same place.
pub proof fn lemma_index_distinct(width: int, height: int, x: int, y: int, x2: int, y2: int)
    requires
        0 <= x < width,
        0 <= y < height,
        0 <= x2 < width,
        0 <= y2 < height,
    ensures
        y * width + x == y2 * width + x2 ==> x == x2 && y == y2,
{
    lemma_index(width, height, x, y);
    lemma_index(width, height, x2, y2);
}

/// In a grid without anything after the last row the samples that can be
/// tapped are those at its places.
pub proof fn lemma_tap_exact<T>(g: Grid<T>, x: int, y: int)
    requires
        g.is_exact(),
    ensures
        g.tap(x, y) == if g.contains(x, y) {
            Some(g.at(x, y))
        } else {
            None
        },
{
    if g.contains(x, y) {
        lemma_index(g.width, g.height, x, y);
    } else if 0 <= x < g.width && y >= g.height {
        assert(y * g.width + x >= g.width * g.height) by (nonlinear_arith)
            requires
                y >= g.height,
                0 <= x,
                0 <= g.width,
        ;
    }
}

/// A grid of which the places before sample `n` hold `f` and the rest is that
/// of `old`.
pub open spec fn overwritten<T>(old: Grid<T>, f: spec_fn(int, int) -> T, n: int) -> Grid<T> {
    Grid {
        width: old.width,
        height: old.height,
        samples: Seq::new(
            old.samples.len(),
            |i: int|
                if i < n {
                    f(i % old.width, i / old.width)
                } else {
                    old.samples[i]
                },
        ),
    }
}

pub proof fn lemma_overwritten_none<T>(old: Grid<T>, f: spec_fn(int, int) -> T)
    ensures
        overwritten(old, f, 0) == old,
{
    assert(overwritten(old, f, 0).samples =~= old.samples);
}

/// Writing one place more.
pub proof fn lemma_overwritten_step<T>(old: Grid<T>, f: spec_fn(int, int) -> T, x: int, y: int)
    requires
        old.is_exact(),
        old.contains(x, y),
    ensures
        0 <= y * old.width + x < old.samples.len(),
        overwritten(old, f, y * old.width + x + 1).samples == overwritten(
            old,
            f,
            y * old.width + x,
        ).samples.update(y * old.width + x, f(x, y)),
{
    lemma_index(old.width, old.height, x, y);
    let n = y * old.width + x;
    assert(overwritten(old, f, n + 1).samples =~= overwritten(old, f, n).samples.update(
        n,
        f(x, y),
    ));
}

/// All places are written.
pub proof fn lemma_overwritten_all<T>(old: Grid<T>, f: spec_fn(int, int) -> T)
    requires
        old.is_exact(),
    ensures
        overwritten(old, f, old.height * old.width) == grid_of(old.width, old.height, f),
{
    assert(old.height * old.width == old.width * old.height) by (nonlinear_arith);
    assert(overwritten(old, f, old.height * old.width).samples =~= grid_of(
        old.width,
        old.height,
        f,
    ).samples);
}

/// The end of a row is the start of the next.
pub proof fn lemma_next_row(width: int, y: int)
    ensures
        y * width + width == (y + 1) * width,
{
    assert(y * width + width == (y + 1) * width) by (nonlinear_arith);
}

/// The grid with rows and columns exchanged.
pub open spec fn transposed<T>(g: Grid<T>) -> Grid<T> {
    grid_of(g.height, g.width, |x: int, y: int| g.at(y, x))
}

/// The sample of a grid that was made from a function.
pub proof fn lemma_grid_of_at<T>(width: int, height: int, f: spec_fn(int, int) -> T, x: int, y: int)
    requires
        0 <= x < width,
        0 <= y < height,
    ensures
        grid_of(width, height, f).at(x, y) == f(x, y),
{
    lemma_index(width, height, x, y);
}

/// Grids of one size are the same if they agree everywhere.
pub proof fn lemma_same_grid<T>(a: Grid<T>, b: Grid<T>)
    requires
        a.is_exact(),
        b.is_exact(),
        a.width == b.width,
        a.height == b.height,
        forall|x: int, y: int|
            0 <= x < a.width && 0 <= y < a.height ==> #[trigger] a.at(x, y) == b.at(x, y),
    ensures
        a == b,
{
    assert forall|i: int| 0 <= i < a.samples.len() implies a.samples[i] == b.samples[i] by {
        lemma_place(a.width, a.height, i);
        assert(a.at(i % a.width, i / a.width) == b.at(i % a.width, i / a.width));
    }
    assert(a.samples =~= b.samples);
}

/// A grid that was made from a function has all of its samples.
pub proof fn lemma_grid_of_exact<T>(width: int, height: int, f: spec_fn(int, int) -> T)
    requires
        0 <= width <= u32::MAX,
        0 <= height <= u32::MAX,
    ensures
        grid_of(width, height, f).is_exact(),
{
    assert(0 <= width * height) by (nonlinear_arith)
        requires
            0 <= width,
            0 <= height,
    ;
}

} // verus!
