//! Selection of candidates that are not too near to each other.
use vstd::arithmetic::div_mod::{lemma_div_pos_is_pos, lemma_fundamental_div_mod, lemma_mod_bound};
use vstd::prelude::*;

use crate::binary32::Binary32;
use crate::feature::Feature;
use crate::features::{features_of, is_descending, Candidate};
use crate::grid::{lemma_index, lemma_index_distinct};

verus! {

/// Side of the cells in which accepted candidates are looked up.
pub open spec fn cell_size(min_distance: u32) -> int {
    if min_distance == 0 {
        1
    } else {
        min_distance as int
    }
}

/// How many cells of a side cover a length.
pub open spec fn cells_along(length: int, size: int) -> int {
    (length + size - 1) / size
}

/// How many cells cover an image.
pub open spec fn cell_total(width: u32, height: u32, min_distance: u32) -> int {
    cells_along(width as int, cell_size(min_distance)) * cells_along(
        height as int,
        cell_size(min_distance),
    )
}

/// The cell of a candidate.
pub open spec fn cell_of(c: Candidate, size: int) -> (int, int) {
    (c.0 as int / size, c.1 as int / size)
}

pub open spec fn distance_sq(a: Candidate, b: Candidate) -> int {
    (a.0 - b.0) * (a.0 - b.0) + (a.1 - b.1) * (a.1 - b.1)
}

/// A candidate is nearer than the minimal distance to one that was accepted
/// before it.
pub open spec fn is_crowded(accepted: Seq<Candidate>, c: Candidate, min_distance: u32) -> bool {
    exists|j: int|
        0 <= j < accepted.len() && distance_sq(#[trigger] accepted[j], c) < min_distance
            * min_distance
}

/// What is accepted of the first `n` candidates, each in its turn.
pub open spec fn accepted(
    order: Seq<Candidate>,
    n: int,
    min_distance: u32,
    max_features: int,
) -> Seq<Candidate>
    decreases n,
{
    if n <= 0 {
        Seq::empty()
    } else {
        let before = accepted(order, n - 1, min_distance, max_features);
        if before.len() >= max_features || is_crowded(before, order[n - 1], min_distance) {
            before
        } else {
            before.push(order[n - 1])
        }
    }
}

/// What is accepted of all candidates.
pub open spec fn selected(
    order: Seq<Candidate>,
    min_distance: u32,
    max_features: int,
) -> Seq<Candidate> {
    accepted(order, order.len() as int, min_distance, max_features)
}

/// Of the first `n` candidates the last in a cell has number `mark`, counted
/// from one; zero stands for none.
spec fn is_last_before(
    taken: Seq<Candidate>,
    size: int,
    cell: (int, int),
    n: int,
    mark: int,
) -> bool {
    &&& 0 <= mark <= n
    &&& mark > 0 ==> cell_of(taken[mark - 1], size) == cell
    &&& forall|k: int| mark <= k < n ==> cell_of(#[trigger] taken[k], size) != cell
}

/// Accepted candidates, chained by the cell they are in: each cell names its
/// last one, and each of them the one before it in the same cell.
pub struct CellGrid {
    heads: Vec<usize>,
    links: Vec<usize>,
    taken: Vec<Candidate>,
}

impl CellGrid {
    /// Number of cells.
    pub closed spec fn cells(&self) -> nat {
        self.heads@.len()
    }

    /// The accepted candidates, in their order.
    pub closed spec fn points(&self) -> Seq<Candidate> {
        self.taken@
    }

    spec fn head(&self, columns: int, cell: (int, int)) -> int {
        self.heads@[cell.1 * columns + cell.0] as int
    }

    /// The chains hold the accepted candidates.
    spec fn holds(&self, columns: int, rows: int, taken: Seq<Candidate>, size: int) -> bool {
        &&& self.heads@.len() == columns * rows
        &&& self.links@.len() == taken.len()
        &&& self.taken@ == taken
        &&& forall|j: int|
            0 <= j < taken.len() ==> is_last_before(
                taken,
                size,
                cell_of(taken[j], size),
                j,
                #[trigger] self.links@[j] as int,
            )
        &&& forall|cell: (int, int)|
            0 <= cell.0 < columns && 0 <= cell.1 < rows ==> is_last_before(
                taken,
                size,
                cell,
                taken.len() as int,
                #[trigger] self.head(columns, cell),
            )
    }

    /// Allocate the cells for images of the given dimensions.
    pub fn with_capacity(width: u32, height: u32, min_distance: u32) -> (r: CellGrid)
        requires
            width * height <= usize::MAX,
        ensures
            r.cells() == cell_total(width, height, min_distance),
            r.points().len() == 0,
    {
        let (columns, rows, _) = cell_counts(width, height, min_distance);
        CellGrid {
            heads: vec![0; columns as usize * rows as usize],
            links: Vec::new(),
            taken: Vec::new(),
        }
    }

    /// Borrow the accepted candidates.
    pub fn accepted_points(&self) -> (r: &Vec<Candidate>)
        ensures
            r@ == self.points(),
    {
        &self.taken
    }

    /// Forget all candidates, and have the cells for the given dimensions.
    fn reset(&mut self, columns: u32, rows: u32)
        requires
            0 <= columns * rows <= usize::MAX,
        ensures
            forall|size: int|
                #[trigger] final(self).holds(columns as int, rows as int, Seq::empty(), size),
            final(self).cells() == columns * rows,
    {
        self.heads.clear();
        self.heads.resize(columns as usize * rows as usize, 0);
        self.links.clear();
        self.taken.clear();
        proof {
            assert(self.taken@ =~= Seq::<Candidate>::empty());
            assert forall|size: int| #[trigger]
                self.holds(columns as int, rows as int, Seq::empty(), size) by {
                assert forall|cell: (int, int)|
                    0 <= cell.0 < columns && 0 <= cell.1 < rows implies is_last_before(
                    Seq::empty(),
                    size,
                    cell,
                    0,
                    #[trigger] self.head(columns as int, cell),
                ) by {
                    lemma_index(columns as int, rows as int, cell.0, cell.1);
                }
            }
        }
    }

    /// Add an accepted candidate.
    fn insert(
        &mut self,
        columns: u32,
        rows: u32,
        size: u32,
        c: Candidate,
        Ghost(taken): Ghost<Seq<Candidate>>,
    )
        requires
            0 < size,
            old(self).holds(columns as int, rows as int, taken, size as int),
            cell_of(c, size as int).0 < columns,
            cell_of(c, size as int).1 < rows,
            taken.len() < usize::MAX,
        ensures
            final(self).holds(columns as int, rows as int, taken.push(c), size as int),
            final(self).cells() == old(self).cells(),
    {
        let ghost before = *self;
        let ghost w = columns as int;
        let ghost s = size as int;
        let ghost here = cell_of(c, s);
        let ghost now = taken.push(c);
        let ghost n = taken.len() as int;
        proof {
            lemma_div_pos_is_pos(c.0 as int, s);
            lemma_div_pos_is_pos(c.1 as int, s);
            lemma_index(w, rows as int, here.0, here.1);
            assert(self.heads@.len() == self.heads.len());
            assert(is_last_before(taken, s, here, n, self.head(w, here)));
        }
        let idx: usize = (c.1 / size) as usize * columns as usize + (c.0 / size) as usize;
        self.links.push(self.heads[idx]);
        self.taken.push(c);
        self.heads[idx] = self.taken.len();
        proof {
            assert(now[n] == c);
            assert forall|j: int| 0 <= j < now.len() implies is_last_before(
                now,
                s,
                cell_of(now[j], s),
                j,
                #[trigger] self.links@[j] as int,
            ) by {
                let cell = cell_of(now[j], s);
                if j < n {
                    assert(now[j] == taken[j]);
                    assert(self.links@[j] == before.links@[j]);
                    lemma_last_before_prefix(taken, c, s, cell, j, before.links@[j] as int);
                } else {
                    assert(self.links@[j] == before.head(w, here));
                    lemma_last_before_prefix(taken, c, s, here, n, before.head(w, here));
                }
            }
            assert forall|cell: (int, int)|
                0 <= cell.0 < columns && 0 <= cell.1 < rows implies is_last_before(
                now,
                s,
                cell,
                now.len() as int,
                #[trigger] self.head(w, cell),
            ) by {
                lemma_index(w, rows as int, cell.0, cell.1);
                lemma_index_distinct(w, rows as int, cell.0, cell.1, here.0, here.1);
                if cell != here {
                    assert(self.head(w, cell) == before.head(w, cell));
                    lemma_last_before_prefix(taken, c, s, cell, n, before.head(w, cell));
                }
            }
            assert(self.taken@ =~= now);
        }
    }

    /// Whether an accepted candidate in one cell is too near to a candidate.
    fn is_near_in_cell(
        &self,
        columns: u32,
        rows: u32,
        cell_x: u32,
        cell_y: u32,
        min_distance: u32,
        c: Candidate,
        Ghost(taken): Ghost<Seq<Candidate>>,
        Ghost(size): Ghost<int>,
    ) -> (r: bool)
        requires
            self.holds(columns as int, rows as int, taken, size),
            cell_x < columns,
            cell_y < rows,
        ensures
            r == is_crowded_in(taken, size, (cell_x as int, cell_y as int), c, min_distance),
    {
        let ghost cell = (cell_x as int, cell_y as int);
        proof {
            lemma_index(columns as int, rows as int, cell_x as int, cell_y as int);
            assert(self.heads@.len() == self.heads.len());
        }
        assert(0 <= min_distance * min_distance <= 0x1_0000_0000_0000_0000) by (nonlinear_arith)
            requires
                0 <= min_distance <= 0x1_0000_0000,
        ;
        let min_dist_sq: i128 = min_distance as i128 * min_distance as i128;
        let mut mark: usize = self.heads[cell_y as usize * columns as usize + cell_x as usize];
        assert(mark == self.head(columns as int, cell));
        while mark > 0
            invariant
                self.holds(columns as int, rows as int, taken, size),
                min_dist_sq == min_distance * min_distance,
                mark <= taken.len(),
                mark > 0 ==> cell_of(taken[mark - 1], size) == cell,
                cell == (cell_x as int, cell_y as int),
                forall|k: int|
                    mark <= k < taken.len() && cell_of(#[trigger] taken[k], size) == cell
                        ==> distance_sq(taken[k], c) >= min_distance * min_distance,
            decreases mark,
        {
            let j: usize = mark - 1;
            let (px, py, _) = self.taken[j];
            let dx: i128 = px as i128 - c.0 as i128;
            let dy: i128 = py as i128 - c.1 as i128;
            assert(0 <= dx * dx <= 0x1_0000_0000_0000_0000) by (nonlinear_arith)
                requires
                    -0x1_0000_0000 <= dx <= 0x1_0000_0000,
            ;
            assert(0 <= dy * dy <= 0x1_0000_0000_0000_0000) by (nonlinear_arith)
                requires
                    -0x1_0000_0000 <= dy <= 0x1_0000_0000,
            ;
            assert(distance_sq(taken[j as int], c) == dx * dx + dy * dy);
            if dx * dx + dy * dy < min_dist_sq {
                return true;
            }
            mark = self.links[j];
            assert(is_last_before(taken, size, cell, j as int, self.links@[j as int] as int));
        }
        false
    }
}

/// What is accepted later does not change what came before.
proof fn lemma_last_before_prefix(
    taken: Seq<Candidate>,
    c: Candidate,
    size: int,
    cell: (int, int),
    n: int,
    mark: int,
)
    requires
        0 <= n <= taken.len(),
        is_last_before(taken, size, cell, n, mark),
    ensures
        is_last_before(taken.push(c), size, cell, n, mark),
        n == taken.len() && cell_of(c, size) != cell ==> is_last_before(
            taken.push(c),
            size,
            cell,
            n + 1,
            mark,
        ),
{
    let now = taken.push(c);
    assert forall|k: int| mark <= k < n implies cell_of(#[trigger] now[k], size) != cell by {
        assert(now[k] == taken[k]);
    }
    if mark > 0 {
        assert(now[mark - 1] == taken[mark - 1]);
    }
}

/// An accepted candidate in a cell is nearer than the minimal distance.
spec fn is_crowded_in(
    taken: Seq<Candidate>,
    size: int,
    cell: (int, int),
    c: Candidate,
    min_distance: u32,
) -> bool {
    exists|j: int|
        0 <= j < taken.len() && cell_of(#[trigger] taken[j], size) == cell && distance_sq(
            taken[j],
            c,
        ) < min_distance * min_distance
}

/// Coordinates nearer than the side of a cell are in cells beside each other.
proof fn lemma_near_cells(a: int, b: int, size: int)
    requires
        0 <= a,
        0 <= b,
        0 < size,
        -size < a - b < size,
    ensures
        -1 <= a / size - b / size <= 1,
{
    let p = a / size;
    let q = b / size;
    lemma_fundamental_div_mod(a, size);
    lemma_fundamental_div_mod(b, size);
    lemma_mod_bound(a, size);
    lemma_mod_bound(b, size);
    assert(-1 <= p - q <= 1) by (nonlinear_arith)
        requires
            a == size * p + a % size,
            b == size * q + b % size,
            0 <= a % size < size,
            0 <= b % size < size,
            -size < a - b < size,
            0 < size,
    ;
}

/// A candidate nearer than the minimal distance is in one of the cells about.
proof fn lemma_near_candidates(a: Candidate, b: Candidate, d: u32)
    requires
        distance_sq(a, b) < d * d,
    ensures
        0 < d,
        -1 <= cell_of(a, d as int).0 - cell_of(b, d as int).0 <= 1,
        -1 <= cell_of(a, d as int).1 - cell_of(b, d as int).1 <= 1,
{
    let dx = a.0 - b.0;
    let dy = a.1 - b.1;
    let size = d as int;
    assert(-size < dx < size && -size < dy < size) by (nonlinear_arith)
        requires
            dx * dx + dy * dy < size * size,
            0 <= size,
    ;
    lemma_near_cells(a.0 as int, b.0 as int, size);
    lemma_near_cells(a.1 as int, b.1 as int, size);
}

/// A coordinate within a length has a cell among those that cover it.
proof fn lemma_cell_in_range(c: int, length: int, size: int)
    requires
        0 <= c < length,
        0 < size,
    ensures
        0 <= c / size < cells_along(length, size),
{
    lemma_div_pos_is_pos(c, size);
    let p = c / size;
    let q = (length + size - 1) / size;
    lemma_fundamental_div_mod(c, size);
    lemma_fundamental_div_mod(length + size - 1, size);
    lemma_mod_bound(c, size);
    lemma_mod_bound(length + size - 1, size);
    assert(p < q) by (nonlinear_arith)
        requires
            c == size * p + c % size,
            length + size - 1 == size * q + (length + size - 1) % size,
            0 <= c % size < size,
            0 <= (length + size - 1) % size < size,
            c < length,
            0 < size,
    ;
}

/// How many cells cover a length.
fn cell_count(length: u32, size: u32) -> (r: u32)
    requires
        0 < size,
    ensures
        r == cells_along(length as int, size as int),
        r <= length,
{
    let n: u64 = (length as u64 + size as u64 - 1) / size as u64;
    proof {
        let top = length + size - 1;
        lemma_fundamental_div_mod(top, size as int);
        lemma_mod_bound(top, size as int);
        assert(n <= length) by (nonlinear_arith)
            requires
                length + size - 1 == size * n + top % (size as int),
                0 <= top % (size as int),
                0 < size,
                0 <= length,
        ;
    }
    n as u32
}

/// Columns and rows of the cells that cover an image, and their side.
fn cell_counts(width: u32, height: u32, min_distance: u32) -> (r: (u32, u32, u32))
    ensures
        r.2 == cell_size(min_distance),
        r.0 == cells_along(width as int, r.2 as int),
        r.1 == cells_along(height as int, r.2 as int),
        0 <= r.0 * r.1 <= width * height,
        r.0 * r.1 == cell_total(width, height, min_distance),
{
    let size: u32 = if min_distance == 0 {
        1
    } else {
        min_distance
    };
    let columns: u32 = cell_count(width, size);
    let rows: u32 = cell_count(height, size);
    assert(0 <= columns * rows <= width * height) by (nonlinear_arith)
        requires
            0 <= columns <= width,
            0 <= rows <= height,
    ;
    (columns, rows, size)
}

/// Whether an accepted candidate in one of the cells about is too near.
fn is_too_close(
    cells: &CellGrid,
    columns: u32,
    rows: u32,
    size: u32,
    min_distance: u32,
    c: Candidate,
    Ghost(taken): Ghost<Seq<Candidate>>,
) -> (r: bool)
    requires
        size == cell_size(min_distance),
        cells.holds(columns as int, rows as int, taken, size as int),
        forall|j: int|
            0 <= j < taken.len() ==> cell_of(#[trigger] taken[j], size as int).0 < columns
                && cell_of(taken[j], size as int).1 < rows,
        cell_of(c, size as int).0 < columns,
        cell_of(c, size as int).1 < rows,
    ensures
        r == is_crowded(taken, c, min_distance),
{
    let cell_x: u32 = c.0 / size;
    let cell_y: u32 = c.1 / size;
    let first_x: u32 = if cell_x == 0 {
        0
    } else {
        cell_x - 1
    };
    let first_y: u32 = if cell_y == 0 {
        0
    } else {
        cell_y - 1
    };
    let end_x: u32 = if cell_x == columns - 1 {
        columns
    } else {
        cell_x + 2
    };
    let end_y: u32 = if cell_y == rows - 1 {
        rows
    } else {
        cell_y + 2
    };
    let mut check_x: u32 = first_x;
    while check_x < end_x
        invariant
            size == cell_size(min_distance),
            cells.holds(columns as int, rows as int, taken, size as int),
            cell_of(c, size as int) == (cell_x as int, cell_y as int),
            first_x <= check_x <= end_x <= columns,
            first_y <= end_y <= rows,
            forall|x: int, y: int|
                first_x <= x < check_x && first_y <= y < end_y ==> !(#[trigger] is_crowded_in(
                    taken,
                    size as int,
                    (x, y),
                    c,
                    min_distance,
                )),
        decreases end_x - check_x,
    {
        let mut check_y: u32 = first_y;
        while check_y < end_y
            invariant
                size == cell_size(min_distance),
                cells.holds(columns as int, rows as int, taken, size as int),
                first_x <= check_x < end_x <= columns,
                first_y <= check_y <= end_y <= rows,
                forall|x: int, y: int|
                    first_x <= x < check_x && first_y <= y < end_y ==> !(#[trigger] is_crowded_in(
                        taken,
                        size as int,
                        (x, y),
                        c,
                        min_distance,
                    )),
                forall|y: int|
                    first_y <= y < check_y ==> !(#[trigger] is_crowded_in(
                        taken,
                        size as int,
                        (check_x as int, y),
                        c,
                        min_distance,
                    )),
            decreases end_y - check_y,
        {
            if cells.is_near_in_cell(
                columns,
                rows,
                check_x,
                check_y,
                min_distance,
                c,
                Ghost(taken),
                Ghost(size as int),
            ) {
                return true;
            }
            check_y = check_y + 1;
        }
        check_x = check_x + 1;
    }
    proof {
        if is_crowded(taken, c, min_distance) {
            let j = choose|j: int|
                0 <= j < taken.len() && distance_sq(#[trigger] taken[j], c) < min_distance
                    * min_distance;
            lemma_near_candidates(taken[j], c, min_distance);
            let cell = cell_of(taken[j], size as int);
            lemma_div_pos_is_pos(taken[j].0 as int, size as int);
            lemma_div_pos_is_pos(taken[j].1 as int, size as int);
            assert(is_crowded_in(taken, size as int, (cell.0, cell.1), c, min_distance));
        }
    }
    false
}

/// Accept candidates in their order, up to `max_features`, none nearer than
/// `min_distance` to one that was accepted before.
pub fn accept_by_distance(
    features: &Vec<Candidate>,
    min_distance: u32,
    width: u32,
    height: u32,
    max_features: usize,
    cells: &mut CellGrid,
)
    requires
        width * height <= usize::MAX,
        forall|i: int|
            0 <= i < features@.len() ==> (#[trigger] features@[i]).0 < width && features@[i].1
                < height,
    ensures
        final(cells).points() == selected(features@, min_distance, max_features as int),
        final(cells).cells() == cell_total(width, height, min_distance),
{
    let (columns, rows, size) = cell_counts(width, height, min_distance);
    cells.reset(columns, rows);
    let ghost mut taken: Seq<Candidate> = Seq::empty();
    let ghost order = features@;
    let ghost d = min_distance;
    let ghost most = max_features as int;
    let ghost s = size as int;
    let mut i: usize = 0;
    proof {
        assert(cells.holds(columns as int, rows as int, taken, s));
    }
    while i < features.len() && cells.taken.len() < max_features
        invariant
            order == features@,
            d == min_distance,
            most == max_features,
            s == size,
            s == cell_size(d),
            columns == cells_along(width as int, s),
            rows == cells_along(height as int, s),
            forall|i: int|
                0 <= i < order.len() ==> (#[trigger] order[i]).0 < width && order[i].1 < height,
            i <= order.len(),
            taken == accepted(order, i as int, d, most),
            taken.len() <= i,
            cells.holds(columns as int, rows as int, taken, s),
            cells.cells() == columns * rows,
            forall|j: int|
                0 <= j < taken.len() ==> cell_of(#[trigger] taken[j], s).0 < columns && cell_of(
                    taken[j],
                    s,
                ).1 < rows,
        decreases order.len() - i,
    {
        let c: Candidate = features[i];
        proof {
            lemma_cell_in_range(c.0 as int, width as int, s);
            lemma_cell_in_range(c.1 as int, height as int, s);
            assert(order.len() == features.len());
        }
        let too_close: bool = is_too_close(
            cells,
            columns,
            rows,
            size,
            min_distance,
            c,
            Ghost(taken),
        );
        if !too_close {
            cells.insert(columns, rows, size, c, Ghost(taken));
            proof {
                taken = taken.push(c);
            }
        }
        i = i + 1;
    }
    proof {
        if i < order.len() {
            lemma_full(order, i as int, order.len() as int, d, most);
        }
    }
}

/// Accept candidates as [`accept_by_distance`] does, and write them as features
/// into `out` (cleared first).
pub fn filter_by_distance_into(
    features: &Vec<Candidate>,
    min_distance: u32,
    width: u32,
    height: u32,
    max_features: usize,
    cells: &mut CellGrid,
    out: &mut Vec<Feature>,
)
    requires
        width * height <= usize::MAX,
        forall|i: int|
            0 <= i < features@.len() ==> (#[trigger] features@[i]).0 < width && features@[i].1
                < height,
    ensures
        final(out)@ == features_of(selected(features@, min_distance, max_features as int)),
        final(cells).points() == selected(features@, min_distance, max_features as int),
        final(cells).cells() == cell_total(width, height, min_distance),
{
    accept_by_distance(features, min_distance, width, height, max_features, cells);
    let points: &Vec<Candidate> = cells.accepted_points();
    out.clear();
    let mut i: usize = 0;
    while i < points.len()
        invariant
            i <= points@.len(),
            out@ =~= features_of(points@).take(i as int),
        decreases points@.len() - i,
    {
        let c: Candidate = points[i];
        out.push(
            Feature {
                x: Binary32::from_int(c.0 as i64),
                y: Binary32::from_int(c.1 as i64),
                strength: c.2,
            },
        );
        i = i + 1;
    }
    assert(out@ =~= features_of(points@));
}

/// Nothing is accepted once there is enough.
proof fn lemma_full(order: Seq<Candidate>, n: int, m: int, d: u32, most: int)
    requires
        0 <= n <= m,
        accepted(order, n, d, most).len() >= most,
    ensures
        accepted(order, m, d, most) == accepted(order, n, d, most),
    decreases m - n,
{
    if n < m {
        lemma_full(order, n, m - 1, d, most);
    }
}

/// Every two points are apart by the minimal distance.
pub open spec fn is_spaced(points: Seq<Candidate>, min_distance: u32) -> bool {
    forall|i: int, j: int|
        0 <= i < j < points.len() ==> #[trigger] distance_sq(points[i], points[j]) >= min_distance
            * min_distance
}

/// A candidate is one of the points or nearer than the minimal distance to one
/// of them.
pub open spec fn is_represented(
    points: Seq<Candidate>,
    c: Candidate,
    min_distance: u32,
) -> bool {
    exists|i: int|
        0 <= i < points.len() && (#[trigger] points[i] == c || distance_sq(points[i], c)
            < min_distance * min_distance)
}

pub(crate) proof fn lemma_accepted(order: Seq<Candidate>, n: int, d: u32, most: int)
    requires
        0 <= n <= order.len(),
        0 <= most,
        is_descending(order),
    ensures
        ({
            let points = accepted(order, n, d, most);
            &&& points.len() <= most
            &&& is_descending(points)
            &&& is_spaced(points, d)
            &&& forall|i: int|
                0 <= i < points.len() ==> order.take(n).contains(#[trigger] points[i])
            &&& points.len() < most ==> forall|m: int|
                0 <= m < n ==> is_represented(points, #[trigger] order[m], d)
        }),
    decreases n,
{
    if n > 0 {
        lemma_accepted(order, n - 1, d, most);
        let earlier = order.take(n - 1);
        let before = accepted(order, n - 1, d, most);
        let points = accepted(order, n, d, most);
        let c = order[n - 1];
        assert forall|i: int| 0 <= i < before.len() implies order.take(n).contains(
            #[trigger] before[i],
        ) by {
            let m = choose|m: int| 0 <= m < earlier.len() && earlier[m] == before[i];
            assert(order.take(n)[m] == before[i]);
        }
        if before.len() < most && is_crowded(before, c, d) {
            let j = choose|j: int|
                0 <= j < before.len() && distance_sq(#[trigger] before[j], c) < d * d;
            assert(before[j] == points[j]);
            assert(is_represented(points, order[n - 1], d));
        } else if before.len() < most {
            let last = before.len() as int;
            assert(points[last] == c);
            assert(order.take(n)[n - 1] == c);
            assert forall|i: int, j: int| 0 <= i < j < points.len() implies !(
            #[trigger] points[i]).2.is_less((#[trigger] points[j]).2) by {
                assert(points[i] == before[i]);
                if j == last {
                    assert(earlier.contains(before[i]));
                    let m = choose|m: int| 0 <= m < earlier.len() && earlier[m] == before[i];
                    assert(order[m] == before[i]);
                } else {
                    assert(points[j] == before[j]);
                }
            }
            assert forall|i: int, j: int| 0 <= i < j < points.len() implies #[trigger] distance_sq(
                points[i],
                points[j],
            ) >= d * d by {
                assert(points[i] == before[i]);
                if j < last {
                    assert(points[j] == before[j]);
                    assert(distance_sq(before[i], before[j]) == distance_sq(points[i], points[j]));
                }
            }
            assert forall|m: int| 0 <= m < n implies is_represented(
                points,
                #[trigger] order[m],
                d,
            ) by {
                if m < n - 1 {
                    let i = choose|i: int|
                        0 <= i < before.len() && (#[trigger] before[i] == order[m] || distance_sq(
                            before[i],
                            order[m],
                        ) < d * d);
                    assert(points[i] == before[i]);
                }
            }
        }
    }
}

/// Nothing is accepted twice.
pub(crate) proof fn lemma_accepted_distinct(order: Seq<Candidate>, n: int, d: u32, most: int)
    requires
        0 <= n <= order.len(),
        order.no_duplicates(),
    ensures
        accepted(order, n, d, most).no_duplicates(),
        forall|i: int|
            0 <= i < accepted(order, n, d, most).len() ==> order.take(n).contains(
                #[trigger] accepted(order, n, d, most)[i],
            ),
    decreases n,
{
    if n > 0 {
        lemma_accepted_distinct(order, n - 1, d, most);
        let before = accepted(order, n - 1, d, most);
        let points = accepted(order, n, d, most);
        let earlier = order.take(n - 1);
        let c = order[n - 1];
        assert forall|i: int| 0 <= i < before.len() implies #[trigger] before[i] != c
            && order.take(n).contains(before[i]) by {
            let m = choose|m: int| 0 <= m < earlier.len() && earlier[m] == before[i];
            assert(order.take(n)[m] == before[i]);
            assert(order[m] != order[n - 1]);
        }
        assert(order.take(n)[n - 1] == c);
        assert forall|i: int| 0 <= i < points.len() implies order.take(n).contains(
            #[trigger] points[i],
        ) by {
            if i < before.len() {
                assert(points[i] == before[i]);
            }
        }
    }
}

/// What becomes of a candidate: it is accepted, or is too near to an accepted
/// one before it, or there was enough before its turn came.
pub open spec fn is_settled(
    order: Seq<Candidate>,
    points: Seq<Candidate>,
    most: int,
    d: u32,
    m: int,
) -> bool {
    ||| points.contains(order[m])
    ||| exists|j: int|
        0 <= j < m && points.contains(#[trigger] order[j]) && distance_sq(order[j], order[m]) < d
            * d
    ||| points.len() >= most && forall|i: int|
        0 <= i < points.len() ==> order.take(m).contains(#[trigger] points[i])
}

/// Every candidate is settled.
pub(crate) proof fn lemma_all_settled(order: Seq<Candidate>, n: int, d: u32, most: int)
    requires
        0 <= n <= order.len(),
    ensures
        forall|i: int|
            0 <= i < accepted(order, n, d, most).len() ==> order.take(n).contains(
                #[trigger] accepted(order, n, d, most)[i],
            ),
        forall|m: int|
            0 <= m < n ==> #[trigger] is_settled(order, accepted(order, n, d, most), most, d, m),
    decreases n,
{
    if n > 0 {
        lemma_all_settled(order, n - 1, d, most);
        let before = accepted(order, n - 1, d, most);
        let points = accepted(order, n, d, most);
        let c = order[n - 1];
        assert forall|p: Candidate| before.contains(p) implies points.contains(p) by {
            let i = choose|i: int| 0 <= i < before.len() && before[i] == p;
            assert(points[i] == p);
        }
        assert forall|i: int| 0 <= i < points.len() implies order.take(n).contains(
            #[trigger] points[i],
        ) by {
            if i < before.len() {
                assert(points[i] == before[i]);
                let earlier = order.take(n - 1);
                assert(earlier.contains(before[i]));
                let m = choose|m: int| 0 <= m < earlier.len() && earlier[m] == before[i];
                assert(order.take(n)[m] == points[i]);
            } else {
                assert(order.take(n)[n - 1] == points[i]);
            }
        }
        assert forall|m: int| 0 <= m < n implies #[trigger] is_settled(
            order,
            points,
            most,
            d,
            m,
        ) by {
            if m < n - 1 {
                assert(is_settled(order, before, most, d, m));
                if before.contains(order[m]) {
                } else if exists|j: int|
                    0 <= j < m && before.contains(#[trigger] order[j]) && distance_sq(
                        order[j],
                        order[m],
                    ) < d * d {
                    let j = choose|j: int|
                        0 <= j < m && before.contains(#[trigger] order[j]) && distance_sq(
                            order[j],
                            order[m],
                        ) < d * d;
                    assert(points.contains(order[j]));
                }
            } else if before.len() < most {
                if is_crowded(before, c, d) {
                    let i = choose|i: int|
                        0 <= i < before.len() && distance_sq(#[trigger] before[i], c) < d * d;
                    let earlier = order.take(n - 1);
                    assert(earlier.contains(before[i]));
                    let j = choose|j: int| 0 <= j < earlier.len() && earlier[j] == before[i];
                    assert(order[j] == before[i]);
                    assert(points.contains(order[j]));
                } else {
                    assert(points[before.len() as int] == c);
                }
            }
        }
    }
}

} // verus!
