//! Chiton: the least total risk of a walk across a grid of risk levels.

use crate::errors::{ConfigurationError, ParseError, PuzzleError};
use crate::search::{
    SearchSpace, Walk, is_walk, least_goal_cost, no_goal_in_range, reaches, reaches_goal, walk_cost,
    walk_end,
};
use crate::text::{all_digits, is_digit, lines, nonempty_lines, nonempty_rows, rows_view};
use vstd::string::*;
use vstd::arithmetic::div_mod::{lemma_fundamental_div_mod, lemma_fundamental_div_mod_converse};
use vstd::prelude::*;

verus! {

/// A rectangular grid of cell weights: the cost of entering each cell.
pub struct Grid {
    cells: Vec<Vec<u64>>,
    width: usize,
}

impl Grid {
    /// The rows of the grid.
    pub closed spec fn view(&self) -> Seq<Seq<u64>> {
        Seq::new(self.cells.len() as nat, |i: int| self.cells[i]@)
    }

    /// All rows have the width of the grid, and its cells can be numbered in 64 bits.
    pub closed spec fn wf(&self) -> bool {
        &&& forall|i: int| 0 <= i < self.cells.len() ==> (#[trigger] self.cells[i]).len() == self.width
        &&& self.cells.len() * self.width <= u64::MAX
    }

    pub closed spec fn height(&self) -> nat {
        self.cells.len() as nat
    }

    pub closed spec fn width(&self) -> nat {
        self.width as nat
    }

    /// The weight of the cell in row `i` and column `j`.
    pub closed spec fn weight(&self, i: int, j: int) -> u64 {
        self.cells[i][j]
    }

    /// The cell in row `i` and column `j` belongs to the grid.
    pub open spec fn in_grid(&self, i: int, j: int) -> bool {
        0 <= i < self.height() && 0 <= j < self.width()
    }

    /// The view of a grid in order has its height and width, and holds its weights.
    pub proof fn lemma_view(&self)
        requires
            self.wf(),
        ensures
            self@.len() == self.height(),
            self.height() * self.width() <= u64::MAX,
            forall|i: int| 0 <= i < self.height() ==> (#[trigger] self@[i]).len() == self.width(),
            forall|i: int, j: int| self.in_grid(i, j) ==> self@[i][j] == self.weight(i, j),
    {
    }

    /// Builds a grid from its rows, which must all have one length.
    pub fn from_rows(cells: Vec<Vec<u64>>) -> (r: Result<Grid, ParseError>)
        ensures
            match r {
                Ok(g) => {
                    &&& g.wf()
                    &&& g@ == Seq::new(cells.len() as nat, |i: int| cells[i]@)
                    &&& g.height() == cells.len()
                    &&& cells.len() > 0 ==> g.width() == cells[0].len()
                    &&& cells.len() == 0 ==> g.width() == 0
                    &&& forall|i: int, j: int| g.in_grid(i, j) ==> g.weight(i, j) == cells[i][j]
                },
                Err(e) => match e {
                    ParseError::RaggedRow(i) => {
                        &&& 0 < i < cells.len()
                        &&& cells[i as int].len() != cells[0].len()
                        &&& forall|k: int| 0 <= k < i ==> (#[trigger] cells[k]).len() == cells[0].len()
                    },
                    ParseError::TooLarge => {
                        &&& cells.len() > 0
                        &&& forall|k: int|
                            0 <= k < cells.len() ==> (#[trigger] cells[k]).len() == cells[0].len()
                        &&& cells.len() * cells[0].len() > u64::MAX
                    },
                    _ => false,
                },
            },
    {
        let h = cells.len();
        let ghost rows = Seq::new(cells.len() as nat, |i: int| cells[i]@);
        if h == 0 {
            let g = Grid { cells, width: 0 };
            proof {
                assert(g@ =~= rows);
            }
            return Ok(g);
        }
        let w = cells[0].len();
        let mut i: usize = 1;
        while i < h
            invariant
                1 <= i <= h,
                h == cells.len(),
                w == cells[0].len(),
                forall|k: int| 0 <= k < i ==> (#[trigger] cells[k]).len() == w,
            decreases h - i,
        {
            if cells[i].len() != w {
                return Err(ParseError::RaggedRow(i));
            }
            i += 1;
        }
        match (h as u64).checked_mul(w as u64) {
            Some(_) => {
                let g = Grid { cells, width: w };
                proof {
                    assert(g@ =~= rows);
                }
                Ok(g)
            },
            None => Err(ParseError::TooLarge),
        }
    }

    pub fn rows(&self) -> (n: usize)
        ensures
            n == self.height(),
    {
        self.cells.len()
    }

    pub fn cols(&self) -> (n: usize)
        ensures
            n == self.width(),
    {
        self.width
    }

    pub fn get(&self, i: usize, j: usize) -> (v: u64)
        requires
            self.wf(),
            self.in_grid(i as int, j as int),
        ensures
            v == self.weight(i as int, j as int),
    {
        self.cells[i][j]
    }
}

/// Row `i` is made of digits and as long as the first row.
pub open spec fn row_ok(rows: Seq<Seq<u8>>, i: int) -> bool {
    all_digits(rows[i]) && rows[i].len() == rows[0].len()
}

/// The rows of digits that a text holds: its lines, but for the empty ones.
pub open spec fn digit_rows(text: Seq<u8>) -> Seq<Seq<u8>> {
    nonempty_rows(lines(text))
}

/// `e` names the first fault of the rows: in the first row that has one,
/// the first character that is no digit, or else its length.
pub open spec fn is_grid_fault(rows: Seq<Seq<u8>>, e: ParseError) -> bool {
    match e {
        ParseError::UnexpectedChar(i, j) => {
            &&& i < rows.len()
            &&& j < rows[i as int].len()
            &&& !is_digit(rows[i as int][j as int])
            &&& all_digits(rows[i as int].take(j as int))
            &&& forall|k: int| 0 <= k < i ==> row_ok(rows, k)
        },
        ParseError::RaggedRow(i) => {
            &&& i < rows.len()
            &&& all_digits(rows[i as int])
            &&& rows[i as int].len() != rows[0].len()
            &&& forall|k: int| 0 <= k < i ==> row_ok(rows, k)
        },
        ParseError::TooLarge => {
            &&& rows.len() > 0
            &&& forall|k: int| 0 <= k < rows.len() ==> row_ok(rows, k)
            &&& rows.len() * rows[0].len() > u64::MAX
        },
        _ => false,
    }
}

/// Reads a grid from rows of digits, one weight a digit. Empty lines are
/// passed over; the rows that are left are numbered from zero.
pub fn build_grid(text: &str) -> (r: Result<Grid, ParseError>)
    ensures
        ({
            let rows = digit_rows(text.spec_bytes());
            match r {
                Ok(g) => {
                    &&& g.wf()
                    &&& forall|k: int| 0 <= k < rows.len() ==> row_ok(rows, k)
                    &&& g.height() == rows.len()
                    &&& rows.len() > 0 ==> g.width() == rows[0].len()
                    &&& rows.len() == 0 ==> g.width() == 0
                    &&& forall|i: int, j: int|
                        g.in_grid(i, j) ==> g.weight(i, j) == rows[i][j] - 48
                },
                Err(e) => is_grid_fault(rows, e),
            }
        }),
{
    let lines = nonempty_lines(text.as_bytes());
    let ghost rows = digit_rows(text.spec_bytes());
    let mut cells: Vec<Vec<u64>> = Vec::new();
    let mut i: usize = 0;
    proof {
        assert(rows.len() == lines.len());
    }
    while i < lines.len()
        invariant
            i <= lines.len(),
            rows_view(lines@) == rows,
            rows == digit_rows(text.spec_bytes()),
            rows.len() == lines.len(),
            cells.len() == i,
            forall|k: int| 0 <= k < i ==> row_ok(rows, k),
            forall|k: int| 0 <= k < i ==> (#[trigger] cells[k]).len() == rows[k].len(),
            forall|k: int, j: int|
                0 <= k < i && 0 <= j < rows[k].len() ==> (#[trigger] cells[k][j]) == rows[k][j] - 48,
        decreases lines.len() - i,
    {
        let line = &lines[i];
        proof {
            assert(rows[i as int] == lines@[i as int]@);
            assert(rows[0] == lines@[0]@);
        }
        let mut row: Vec<u64> = Vec::new();
        let mut j: usize = 0;
        while j < line.len()
            invariant
                j <= line.len(),
                i < rows.len(),
                line@ == rows[i as int],
                rows == digit_rows(text.spec_bytes()),
                forall|k: int| 0 <= k < i ==> row_ok(rows, k),
                row.len() == j,
                all_digits(line@.take(j as int)),
                forall|n: int| 0 <= n < j ==> (#[trigger] row[n]) == line[n] - 48,
            decreases line.len() - j,
        {
            let b = line[j];
            if b < 48 || b > 57 {
                return Err(ParseError::UnexpectedChar(i, j));
            }
            row.push((b - 48) as u64);
            proof {
                assert forall|n: int| 0 <= n < j + 1 implies is_digit(
                    #[trigger] line@.take(j + 1)[n],
                ) by {
                    if n < j {
                        assert(line@.take(j as int)[n] == line@[n]);
                    }
                }
            }
            j += 1;
        }
        proof {
            assert(line@.take(line.len() as int) =~= line@);
        }
        if line.len() != lines[0].len() {
            return Err(ParseError::RaggedRow(i));
        }
        cells.push(row);
        i += 1;
    }
    proof {
        assert forall|k: int| 0 <= k < cells.len() implies (#[trigger] cells[k]).len()
            == cells[0].len() by {
            assert(row_ok(rows, k));
            assert(row_ok(rows, 0));
        }
    }
    match Grid::from_rows(cells) {
        Ok(g) => {
            proof {
                assert forall|a: int, b: int| g.in_grid(a, b) implies g.weight(a, b) == rows[a][b]
                    - 48 by {
                    assert(row_ok(rows, a));
                    assert(row_ok(rows, 0));
                    assert(cells[a][b] == rows[a][b] - 48);
                }
            }
            Ok(g)
        },
        Err(e) => Err(ParseError::TooLarge),
    }
}

/// The weight that a cell of weight `base` has in the tile `tx` to the
/// right and `ty` below: one more for each tile, and 1 after 9.
pub open spec fn tiled_weight(base: u64, tx: int, ty: int) -> int {
    (base + tx + ty - 1) % 9 + 1
}

proof fn lemma_tiled_weight(base: u64, tx: int, ty: int)
    requires
        0 <= tx,
        0 <= ty,
    ensures
        (base % 9 + tx % 9 + ty % 9 + 8) % 9 + 1 == tiled_weight(base, tx, ty),
{
    let a = base as int;
    let k = a / 9 + tx / 9 + ty / 9 - 1;
    let s = a % 9 + tx % 9 + ty % 9 + 8;
    vstd::arithmetic::div_mod::lemma_fundamental_div_mod(a, 9);
    vstd::arithmetic::div_mod::lemma_fundamental_div_mod(tx, 9);
    vstd::arithmetic::div_mod::lemma_fundamental_div_mod(ty, 9);
    assert(a + tx + ty - 1 == 9 * k + s);
    vstd::arithmetic::div_mod::lemma_mod_multiples_vanish(k, s, 9);
}

/// `r` is `grid` laid out `factor` times to the right and below.
pub open spec fn is_tiling(grid: &Grid, factor: nat, r: &Grid) -> bool {
    &&& r.height() == grid.height() * factor
    &&& r.width() == grid.width() * factor
    &&& forall|x: int, y: int| #[trigger]
        r.in_grid(x, y) ==> r.weight(x, y) == tiled_weight(
            grid.weight(x % (grid.height() as int), y % (grid.width() as int)),
            x / (grid.height() as int),
            y / (grid.width() as int),
        )
}

/// A grid `factor` times as wide and as high, made of shifted copies of `grid`.
pub fn tile(grid: &Grid, factor: usize) -> (r: Grid)
    requires
        grid.wf(),
        grid.height() * factor <= usize::MAX,
        grid.width() * factor <= usize::MAX,
        (grid.height() * factor) * (grid.width() * factor) <= u64::MAX,
    ensures
        r.wf(),
        is_tiling(grid, factor as nat, &r),
{
    let h = grid.rows();
    let w = grid.cols();
    let big_h = h * factor;
    let big_w = w * factor;
    let mut cells: Vec<Vec<u64>> = Vec::new();
    let mut x: usize = 0;
    while x < big_h
        invariant
            x <= big_h,
            grid.wf(),
            h == grid.height(),
            w == grid.width(),
            big_h == h * factor,
            big_w == w * factor,
            cells.len() == x,
            forall|a: int| 0 <= a < x ==> (#[trigger] cells[a]).len() == big_w,
            forall|a: int, b: int|
                0 <= a < x && 0 <= b < big_w ==> (#[trigger] cells[a][b]) == tiled_weight(
                    grid.weight(a % (h as int), b % (w as int)),
                    a / (h as int),
                    b / (w as int),
                ),
        decreases big_h - x,
    {
        proof {
            assert(h > 0) by (nonlinear_arith)
                requires
                    0 <= x < h * factor,
            ;
        }
        let mut row: Vec<u64> = Vec::new();
        let mut y: usize = 0;
        while y < big_w
            invariant
                y <= big_w,
                grid.wf(),
                h == grid.height(),
                w == grid.width(),
                h > 0,
                x < big_h,
                big_w == w * factor,
                row.len() == y,
                forall|b: int|
                    0 <= b < y ==> (#[trigger] row[b]) == tiled_weight(
                        grid.weight((x as int) % (h as int), b % (w as int)),
                        (x as int) / (h as int),
                        b / (w as int),
                    ),
            decreases big_w - y,
        {
            proof {
                assert(w > 0) by (nonlinear_arith)
                    requires
                        0 <= y < w * factor,
                ;
            }
            let base = grid.get(x % h, y % w);
            let tx = (x / h) % 9;
            let ty = (y / w) % 9;
            let v = (base % 9 + tx as u64 + ty as u64 + 8) % 9 + 1;
            proof {
                lemma_tiled_weight(base, (x / h) as int, (y / w) as int);
            }
            row.push(v);
            y += 1;
        }
        cells.push(row);
        x += 1;
    }
    let ghost rows = Seq::new(cells.len() as nat, |i: int| cells[i]@);
    let r = Grid { cells, width: big_w };
    proof {
        assert forall|a: int, b: int| #[trigger] r.in_grid(a, b) implies r.weight(a, b)
            == tiled_weight(
            grid.weight(a % (grid.height() as int), b % (grid.width() as int)),
            a / (grid.height() as int),
            b / (grid.width() as int),
        ) by {
            assert(r.weight(a, b) == r.cells[a][b]);
        }
    }
    r
}

/// The cell alone, if it lies in a grid of `h` rows and `w` columns.
pub open spec fn cell_if_inside(h: nat, w: nat, i: int, j: int) -> Seq<(int, int)> {
    if 0 <= i < h && 0 <= j < w {
        seq![(i, j)]
    } else {
        Seq::<(int, int)>::empty()
    }
}

/// The orthogonal neighbours of row `i`, column `j` that lie in a grid of
/// `h` rows and `w` columns: above, left, below, right.
pub open spec fn neighbor_cells(h: nat, w: nat, i: int, j: int) -> Seq<(int, int)> {
    cell_if_inside(h, w, i - 1, j) + cell_if_inside(h, w, i, j - 1) + cell_if_inside(h, w, i + 1, j)
        + cell_if_inside(h, w, i, j + 1)
}

/// Two cells are orthogonal neighbours.
pub open spec fn adjacent(i: int, j: int, i2: int, j2: int) -> bool {
    (i == i2 && (j + 1 == j2 || j2 + 1 == j)) || (j == j2 && (i + 1 == i2 || i2 + 1 == i))
}

/// The up to four orthogonal neighbours of a position that lie in the grid,
/// in the fixed order above, left, below, right.
pub fn find_neighbors(grid: &Grid, i: usize, j: usize) -> (points: Vec<[usize; 2]>)
    requires
        grid.wf(),
    ensures
        points@.map_values(|p: [usize; 2]| (p[0] as int, p[1] as int)) == neighbor_cells(
            grid.height(),
            grid.width(),
            i as int,
            j as int,
        ),
{
    let h = grid.rows();
    let w = grid.cols();
    let mut points: Vec<[usize; 2]> = Vec::new();
    let ghost f = |p: [usize; 2]| (p[0] as int, p[1] as int);
    if i > 0 && i - 1 < h && j < w {
        points.push([i - 1, j]);
    }
    let ghost p1 = points@;
    if i < h && j > 0 && j - 1 < w {
        points.push([i, j - 1]);
    }
    let ghost p2 = points@;
    if i < usize::MAX && i + 1 < h && j < w {
        points.push([i + 1, j]);
    }
    let ghost p3 = points@;
    if i < h && j < usize::MAX && j + 1 < w {
        points.push([i, j + 1]);
    }
    proof {
        let got = points@.map_values(f);
        let want = neighbor_cells(h as nat, w as nat, i as int, j as int);
        assert(got.len() == want.len());
        assert(p1.map_values(f) =~= p1.map_values(f));
        assert forall|k: int| 0 <= k < got.len() implies got[k] == want[k] by {
            assert(got[k] == f(points@[k]));
            if k < p1.len() {
                assert(points@[k] == p1[k]);
            } else if k < p2.len() {
                assert(points@[k] == p2[k]);
            } else if k < p3.len() {
                assert(points@[k] == p3[k]);
            }
        }
        assert(got =~= want);
    }
    points
}

/// The number of the cell in row `i` and column `j`.
pub open spec fn cell_key(w: nat, i: int, j: int) -> int {
    i * w + j
}

/// The grid as a space to search: its cells, numbered row by row, with a
/// step to each orthogonal neighbour at the cost of the cell entered.
pub struct GridSpace<'a> {
    pub grid: &'a Grid,
    pub goal: u64,
}

impl<'a> GridSpace<'a> {
    pub open spec fn row_of(&self, k: u64) -> int {
        (k as int) / (self.grid.width() as int)
    }

    pub open spec fn col_of(&self, k: u64) -> int {
        (k as int) % (self.grid.width() as int)
    }
}

/// The key of a cell of the grid names its row and its column.
pub proof fn lemma_cell_key(h: nat, w: nat, i: int, j: int)
    requires
        0 <= i < h,
        0 <= j < w,
    ensures
        0 <= cell_key(w, i, j) < h * w,
        cell_key(w, i, j) / (w as int) == i,
        cell_key(w, i, j) % (w as int) == j,
{
    lemma_fundamental_div_mod_converse(i * w + j, w as int, i, j);
    assert(i * w + j < h * w) by (nonlinear_arith)
        requires
            0 <= i < h,
            0 <= j < w,
    ;
    assert(0 <= i * w) by (nonlinear_arith)
        requires
            0 <= i,
            0 <= w,
    ;
}

/// Every key below the number of cells is the key of a cell of the grid.
pub proof fn lemma_key_cell(h: nat, w: nat, k: int)
    requires
        0 <= k < h * w,
    ensures
        w > 0,
        0 <= k / (w as int) < h,
        0 <= k % (w as int) < w,
        cell_key(w, k / (w as int), k % (w as int)) == k,
{
    assert(w > 0) by (nonlinear_arith)
        requires
            0 <= k < h * w,
    ;
    lemma_fundamental_div_mod(k, w as int);
    let q = k / (w as int);
    let r = k % (w as int);
    assert(0 <= r < w);
    assert(w * q == q * w) by (nonlinear_arith);
    assert(0 <= q < h) by (nonlinear_arith)
        requires
            0 <= k < h * w,
            k == q * w + r,
            0 <= r < w,
    ;
}

impl<'a> SearchSpace for GridSpace<'a> {
    open spec fn inv(&self) -> bool {
        self.grid.wf()
    }

    open spec fn valid(&self, k: u64) -> bool {
        k < self.grid.height() * self.grid.width()
    }

    open spec fn step(&self, from: u64, to: u64, cost: u64) -> bool {
        &&& self.valid(from)
        &&& self.valid(to)
        &&& adjacent(self.row_of(from), self.col_of(from), self.row_of(to), self.col_of(to))
        &&& cost == self.grid.weight(self.row_of(to), self.col_of(to))
    }

    open spec fn is_goal(&self, k: u64) -> bool {
        k == self.goal
    }

    open spec fn key_bound(&self) -> nat {
        self.grid.height() * self.grid.width()
    }

    proof fn lemma_key_bound(&self, k: u64) {
    }

    fn contains(&self, k: u64) -> (b: bool) {
        let h = self.grid.rows() as u64;
        let w = self.grid.cols() as u64;
        proof {
            self.grid.lemma_view();
        }
        k < h * w
    }

    fn goal(&self, k: u64) -> (b: bool) {
        k == self.goal
    }

    fn successors(&self, k: u64) -> (r: Vec<(u64, u64)>) {
        let h = self.grid.rows();
        let w = self.grid.cols();
        proof {
            self.grid.lemma_view();
            lemma_key_cell(h as nat, w as nat, k as int);
        }
        let i = (k / (w as u64)) as usize;
        let j = (k % (w as u64)) as usize;
        let near = find_neighbors(self.grid, i, j);
        let ghost cells = neighbor_cells(h as nat, w as nat, i as int, j as int);
        let ghost f = |p: [usize; 2]| (p[0] as int, p[1] as int);
        proof {
            assert forall|n: int| 0 <= n < cells.len() implies 0 <= (#[trigger] cells[n]).0 < h && 0
                <= cells[n].1 < w && adjacent(i as int, j as int, cells[n].0, cells[n].1) by {}
            assert(cells.len() == near.len());
        }
        let mut r: Vec<(u64, u64)> = Vec::new();
        let mut n: usize = 0;
        while n < near.len()
            invariant
                n <= near.len(),
                self.grid.wf(),
                h == self.grid.height(),
                w == self.grid.width(),
                h * w <= u64::MAX,
                near@.map_values(f) == cells,
                cells.len() == near.len(),
                f == |p: [usize; 2]| (p[0] as int, p[1] as int),
                r.len() == n,
                forall|m: int|
                    0 <= m < cells.len() ==> 0 <= (#[trigger] cells[m]).0 < h && 0 <= cells[m].1 < w,
                forall|m: int|
                    0 <= m < n ==> (#[trigger] r[m]).0 == cell_key(w as nat, cells[m].0, cells[m].1)
                        && r[m].1 == self.grid.weight(cells[m].0, cells[m].1),
            decreases near.len() - n,
        {
            let p = near[n];
            proof {
                assert(cells[n as int] == f(near@[n as int]));
                lemma_cell_key(h as nat, w as nat, p[0] as int, p[1] as int);
            }
            let key = (p[0] as u64) * (w as u64) + (p[1] as u64);
            r.push((key, self.grid.get(p[0], p[1])));
            n += 1;
        }
        proof {
            assert(r.len() == cells.len());
            assert forall|m: int| 0 <= m < r.len() implies self.valid((#[trigger] r[m]).0)
                && self.step(k, r[m].0, r[m].1) by {
                lemma_cell_key(h as nat, w as nat, cells[m].0, cells[m].1);
            }
            assert forall|t: u64, c: u64| #[trigger] self.step(k, t, c) implies r@.contains(
                (t, c),
            ) by {
                let ti = self.row_of(t);
                let tj = self.col_of(t);
                lemma_key_cell(h as nat, w as nat, t as int);
                assert(adjacent(i as int, j as int, ti, tj));
                assert(cells.contains((ti, tj))) by {
                    let a = cell_if_inside(h as nat, w as nat, i - 1, j as int);
                    let b = cell_if_inside(h as nat, w as nat, i as int, j - 1);
                    let c3 = cell_if_inside(h as nat, w as nat, i + 1, j as int);
                    let d = cell_if_inside(h as nat, w as nat, i as int, j + 1);
                    if ti == i - 1 {
                        assert((a + b + c3 + d)[0] == (ti, tj));
                    } else if tj == j - 1 {
                        assert((a + b + c3 + d)[a.len() as int] == (ti, tj));
                    } else if ti == i + 1 {
                        assert((a + b + c3 + d)[(a.len() + b.len()) as int] == (ti, tj));
                    } else {
                        assert((a + b + c3 + d)[(a.len() + b.len() + c3.len()) as int] == (ti, tj));
                    }
                }
                let m = choose|m: int| 0 <= m < cells.len() && cells[m] == (ti, tj);
                assert(r[m].0 == t);
                assert(r[m] == (t, c));
            }
        }
        r
    }
}

/// What a search of the grid from `start` to `goal` returns: the least total
/// weight of the cells entered on a walk between them, if it fits in 64 bits.
pub open spec fn is_grid_answer(
    grid: &Grid,
    start: (int, int),
    goal: (int, int),
    r: Option<u64>,
) -> bool {
    let space = GridSpace { grid, goal: cell_key(grid.width(), goal.0, goal.1) as u64 };
    let from = cell_key(grid.width(), start.0, start.1) as u64;
    match r {
        Some(c) => least_goal_cost(&space, from, c as nat),
        None => no_goal_in_range(&space, from),
    }
}

/// The least total weight of the cells entered on a walk of orthogonal steps
/// from `start` to `goal`, each given as row and column.
pub fn shortest_path(grid: &Grid, start: [usize; 2], goal: [usize; 2]) -> (r: Result<
    Option<u64>,
    ConfigurationError,
>)
    requires
        grid.wf(),
    ensures
        match r {
            Ok(c) => {
                &&& grid.in_grid(start[0] as int, start[1] as int)
                &&& grid.in_grid(goal[0] as int, goal[1] as int)
                &&& is_grid_answer(
                    grid,
                    (start[0] as int, start[1] as int),
                    (goal[0] as int, goal[1] as int),
                    c,
                )
            },
            Err(e) => if !grid.in_grid(start[0] as int, start[1] as int) {
                e == ConfigurationError::OutOfGrid(start[0], start[1])
            } else {
                !grid.in_grid(goal[0] as int, goal[1] as int) && e == ConfigurationError::OutOfGrid(
                    goal[0],
                    goal[1],
                )
            },
        },
{
    let h = grid.rows();
    let w = grid.cols();
    if start[0] >= h || start[1] >= w {
        return Err(ConfigurationError::OutOfGrid(start[0], start[1]));
    }
    if goal[0] >= h || goal[1] >= w {
        return Err(ConfigurationError::OutOfGrid(goal[0], goal[1]));
    }
    proof {
        grid.lemma_view();
        lemma_cell_key(h as nat, w as nat, start[0] as int, start[1] as int);
        lemma_cell_key(h as nat, w as nat, goal[0] as int, goal[1] as int);
    }
    let from = (start[0] as u64) * (w as u64) + (start[1] as u64);
    let to = (goal[0] as u64) * (w as u64) + (goal[1] as u64);
    let space = GridSpace { grid, goal: to };
    match crate::search::shortest_path(&space, from) {
        Ok(c) => Ok(c),
        Err(_) => Ok(None),
    }
}

/// The least total risk from the top left corner to the bottom right corner.
pub fn find_path(grid: &Grid) -> (r: Option<u64>)
    requires
        grid.wf(),
        grid.height() > 0,
        grid.width() > 0,
    ensures
        is_grid_answer(grid, (0, 0), (grid.height() - 1, grid.width() - 1), r),
{
    let h = grid.rows();
    let w = grid.cols();
    match shortest_path(grid, [0, 0], [h - 1, w - 1]) {
        Ok(c) => c,
        Err(_) => None,
    }
}

/// The least risk of the grid read from `contents`, corner to corner, and
/// that of the grid tiled five times.
pub fn run(contents: &str) -> (r: Result<(Option<u64>, Option<u64>), PuzzleError>)
    ensures
        match r {
            Ok((first, second)) => exists|g: Grid, big: Grid|
                {
                    &&& #[trigger] is_tiling(&g, 5, &big)
                    &&& g.wf() && big.wf()
                    &&& g.height() > 0 && g.width() > 0
                    &&& forall|k: int|
                        0 <= k < digit_rows(contents.spec_bytes()).len() ==> row_ok(
                            digit_rows(contents.spec_bytes()),
                            k,
                        )
                    &&& g.height() == digit_rows(contents.spec_bytes()).len()
                    &&& g.width() == digit_rows(contents.spec_bytes())[0].len()
                    &&& forall|i: int, j: int|
                        g.in_grid(i, j) ==> g.weight(i, j) == digit_rows(
                            contents.spec_bytes(),
                        )[i][j] - 48
                    &&& is_grid_answer(&g, (0, 0), (g.height() - 1, g.width() - 1), first)
                    &&& is_grid_answer(&big, (0, 0), (big.height() - 1, big.width() - 1), second)
                },
            Err(PuzzleError::Configuration(e)) => {
                &&& e == ConfigurationError::OutOfGrid(0, 0)
                &&& digit_rows(contents.spec_bytes()).len() == 0
            },
            Err(PuzzleError::Parse(e)) => is_grid_fault(digit_rows(contents.spec_bytes()), e),
            Err(PuzzleError::Overflow) => {
                let rows = digit_rows(contents.spec_bytes());
                rows.len() > 0 && (rows.len() * 5 > usize::MAX || rows[0].len() * 5 > usize::MAX
                    || (rows.len() * 5) * (rows[0].len() * 5) > u64::MAX)
            },
            Err(_) => false,
        },
{
    let g = match build_grid(contents) {
        Ok(g) => g,
        Err(e) => {
            return Err(PuzzleError::Parse(e));
        },
    };
    let h = g.rows();
    let w = g.cols();
    if h == 0 {
        return Err(PuzzleError::Configuration(ConfigurationError::OutOfGrid(0, 0)));
    }
    proof {
        crate::text::lemma_nonempty_rows(lines(contents.spec_bytes()));
        assert(digit_rows(contents.spec_bytes())[0].len() > 0);
    }
    let big_h = h.checked_mul(5);
    let big_w = w.checked_mul(5);
    let fits = match (big_h, big_w) {
        (Some(a), Some(b)) => (a as u64).checked_mul(b as u64).is_some(),
        _ => false,
    };
    if !fits {
        return Err(PuzzleError::Overflow);
    }
    let first = find_path(&g);
    let big = tile(&g, 5);
    proof {
        assert(big.height() == h * 5 && big.width() == w * 5);
    }
    let second = find_path(&big);
    proof {
        assert(is_tiling(&g, 5, &big));
    }
    Ok((first, second))
}

// ----- laws -----
/// Every cell of the grid has weight `w`.
pub open spec fn is_uniform(grid: &Grid, w: u64) -> bool {
    forall|i: int, j: int| #[trigger] grid.in_grid(i, j) ==> grid.weight(i, j) == w
}

proof fn lemma_uniform_walk(space: &GridSpace, w: u64, wk: Walk)
    requires
        space.grid.wf(),
        is_uniform(space.grid, w),
        space.grid.height() > 0,
        space.grid.width() > 0,
        is_walk(space, 0, wk),
    ensures
        walk_cost(wk) == w * wk.len(),
        space.valid(walk_end(0, wk)),
        space.row_of(walk_end(0, wk)) + space.col_of(walk_end(0, wk)) <= wk.len(),
    decreases wk.len(),
{
    let h = space.grid.height();
    let wd = space.grid.width();
    if wk.len() == 0 {
        lemma_cell_key(h, wd, 0, 0);
        assert(cell_key(wd, 0, 0) == 0) by (nonlinear_arith);
    } else {
        let p = wk.drop_last();
        lemma_uniform_walk(space, w, p);
        let t = wk.last().0;
        lemma_key_cell(h, wd, t as int);
        assert(space.grid.in_grid(space.row_of(t), space.col_of(t)));
        assert(w * wk.len() == w * p.len() + w) by (nonlinear_arith)
            requires
                wk.len() == p.len() + 1,
        ;
    }
}

/// The cell entered by step `m` of the walk down the first column and then
/// along the last row.
spec fn corner_cell(h: nat, m: int) -> (int, int) {
    if m <= h - 1 {
        (m, 0)
    } else {
        (h - 1, m - (h - 1))
    }
}

spec fn corner_walk(h: nat, wd: nat, w: u64, n: nat) -> Walk {
    Seq::new(
        n,
        |m: int| (cell_key(wd, corner_cell(h, m + 1).0, corner_cell(h, m + 1).1) as u64, w),
    )
}

proof fn lemma_corner_walk(space: &GridSpace, w: u64, n: nat)
    requires
        space.grid.wf(),
        is_uniform(space.grid, w),
        space.grid.height() > 0,
        space.grid.width() > 0,
        n <= (space.grid.height() - 1) + (space.grid.width() - 1),
    ensures
        is_walk(space, 0, corner_walk(space.grid.height(), space.grid.width(), w, n)),
        walk_cost(corner_walk(space.grid.height(), space.grid.width(), w, n)) == w * n,
        walk_end(0, corner_walk(space.grid.height(), space.grid.width(), w, n)) == cell_key(
            space.grid.width(),
            corner_cell(space.grid.height(), n as int).0,
            corner_cell(space.grid.height(), n as int).1,
        ),
    decreases n,
{
    let h = space.grid.height();
    let wd = space.grid.width();
    let wk = corner_walk(h, wd, w, n);
    space.grid.lemma_view();
    if n == 0 {
        assert(cell_key(wd, 0, 0) == 0) by (nonlinear_arith);
    } else {
        let p = corner_walk(h, wd, w, (n - 1) as nat);
        lemma_corner_walk(space, w, (n - 1) as nat);
        assert(wk.drop_last() =~= p);
        let a = corner_cell(h, n - 1);
        let b = corner_cell(h, n as int);
        lemma_cell_key(h, wd, a.0, a.1);
        lemma_cell_key(h, wd, b.0, b.1);
        let from = walk_end(0, p);
        let to = wk.last().0;
        assert(from == cell_key(wd, a.0, a.1));
        assert(to == cell_key(wd, b.0, b.1));
        assert(space.grid.in_grid(b.0, b.1));
        assert(space.step(from, to, w));
        assert(w * n == w * (n - 1) + w) by (nonlinear_arith);
    }
}

/// `m` steps from `a` towards `b`, and `b` where that is nearer.
spec fn toward(a: int, b: int, m: int) -> int {
    if a <= b {
        if a + m <= b {
            a + m
        } else {
            b
        }
    } else {
        if a - m >= b {
            a - m
        } else {
            b
        }
    }
}

/// The steps between two rows, or two columns.
pub open spec fn gap(a: int, b: int) -> int {
    if a <= b {
        b - a
    } else {
        a - b
    }
}

/// The cell after `m` steps on the way from `s` to `g` that goes along
/// the column of `s` first and then along the row of `g`.
spec fn way_cell(s: (int, int), g: (int, int), m: int) -> (int, int) {
    if m <= gap(s.0, g.0) {
        (toward(s.0, g.0, m), s.1)
    } else {
        (g.0, toward(s.1, g.1, m - gap(s.0, g.0)))
    }
}

/// The first `n` steps of that way.
spec fn way(grid: &Grid, s: (int, int), g: (int, int), n: nat) -> Walk {
    Seq::new(
        n,
        |m: int|
            (
                cell_key(grid.width(), way_cell(s, g, m + 1).0, way_cell(s, g, m + 1).1) as u64,
                grid.weight(way_cell(s, g, m + 1).0, way_cell(s, g, m + 1).1),
            ),
    )
}

proof fn lemma_way(space: &GridSpace, top: u64, s: (int, int), g: (int, int), n: nat)
    requires
        space.grid.wf(),
        space.grid.in_grid(s.0, s.1),
        space.grid.in_grid(g.0, g.1),
        forall|i: int, j: int| #[trigger] space.grid.in_grid(i, j) ==> space.grid.weight(i, j) <= top,
        n <= gap(s.0, g.0) + gap(s.1, g.1),
    ensures
        is_walk(space, cell_key(space.grid.width(), s.0, s.1) as u64, way(space.grid, s, g, n)),
        walk_cost(way(space.grid, s, g, n)) <= top * n,
        walk_end(cell_key(space.grid.width(), s.0, s.1) as u64, way(space.grid, s, g, n))
            == cell_key(space.grid.width(), way_cell(s, g, n as int).0, way_cell(s, g, n as int).1),
    decreases n,
{
    let h = space.grid.height();
    let wd = space.grid.width();
    let wk = way(space.grid, s, g, n);
    let start = cell_key(wd, s.0, s.1) as u64;
    space.grid.lemma_view();
    lemma_cell_key(h, wd, s.0, s.1);
    if n > 0 {
        let p = way(space.grid, s, g, (n - 1) as nat);
        lemma_way(space, top, s, g, (n - 1) as nat);
        assert(wk.drop_last() =~= p);
        let a = way_cell(s, g, n - 1);
        let b = way_cell(s, g, n as int);
        assert(space.grid.in_grid(a.0, a.1));
        assert(space.grid.in_grid(b.0, b.1));
        assert(adjacent(a.0, a.1, b.0, b.1));
        lemma_cell_key(h, wd, a.0, a.1);
        lemma_cell_key(h, wd, b.0, b.1);
        let from = walk_end(start, p);
        let to = wk.last().0;
        assert(from == cell_key(wd, a.0, a.1));
        assert(to == cell_key(wd, b.0, b.1));
        assert(wk.last().1 == space.grid.weight(b.0, b.1));
        assert(space.step(from, to, wk.last().1));
        assert(top * n == top * (n - 1) + top) by (nonlinear_arith);
    }
}

/// Every cell of a grid is reached from every other: where no weight is
/// more than `top` and `top` times the steps between two cells fits in 64
/// bits, the search between them returns a cost, and one that is no more.
pub proof fn lemma_grid_is_crossed(
    grid: &Grid,
    top: u64,
    start: (int, int),
    goal: (int, int),
    r: Option<u64>,
)
    requires
        grid.wf(),
        grid.in_grid(start.0, start.1),
        grid.in_grid(goal.0, goal.1),
        forall|i: int, j: int| #[trigger] grid.in_grid(i, j) ==> grid.weight(i, j) <= top,
        top * (gap(start.0, goal.0) + gap(start.1, goal.1)) <= u64::MAX,
        is_grid_answer(grid, start, goal, r),
    ensures
        r is Some,
        r.unwrap() <= top * (gap(start.0, goal.0) + gap(start.1, goal.1)),
{
    let d = (gap(start.0, goal.0) + gap(start.1, goal.1)) as nat;
    let to = cell_key(grid.width(), goal.0, goal.1) as u64;
    let from = cell_key(grid.width(), start.0, start.1) as u64;
    let space = GridSpace { grid, goal: to };
    lemma_way(&space, top, start, goal, d);
    let wk = way(grid, start, goal, d);
    assert(way_cell(start, goal, d as int) == goal);
    grid.lemma_view();
    lemma_cell_key(grid.height(), grid.width(), goal.0, goal.1);
    let c = walk_cost(wk);
    assert(reaches(&space, from, to, c));
    assert(space.is_goal(to));
    assert(reaches_goal(&space, from, c));
}

/// In a grid whose cells all have weight `w`, the search from the top left
/// corner to the bottom right corner returns `w` times the number of steps
/// between them, where that fits in 64 bits, and nothing where it does not.
pub proof fn lemma_uniform_grid(grid: &Grid, w: u64, r: Option<u64>)
    requires
        grid.wf(),
        grid.height() > 0,
        grid.width() > 0,
        is_uniform(grid, w),
        is_grid_answer(grid, (0, 0), (grid.height() - 1, grid.width() - 1), r),
    ensures
        w * ((grid.height() - 1) + (grid.width() - 1)) <= u64::MAX ==> r == Some(
            (w * ((grid.height() - 1) + (grid.width() - 1))) as u64,
        ),
        w * ((grid.height() - 1) + (grid.width() - 1)) > u64::MAX ==> r is None,
{
    let h = grid.height();
    let wd = grid.width();
    let d = ((h - 1) + (wd - 1)) as nat;
    let goal = cell_key(wd, h - 1, wd - 1) as u64;
    let space = GridSpace { grid, goal };
    grid.lemma_view();
    lemma_cell_key(h, wd, h - 1, wd - 1);
    assert(cell_key(wd, 0, 0) == 0) by (nonlinear_arith);
    lemma_corner_walk(&space, w, d);
    let best = corner_walk(h, wd, w, d);
    assert(walk_end(0, best) == goal);
    assert(reaches(&space, 0, goal, (w * d) as nat));
    assert(space.is_goal(goal));
    assert(reaches_goal(&space, 0, (w * d) as nat));
    assert forall|c: nat| #[trigger] reaches_goal(&space, 0, c) implies w * d <= c by {
        let g = choose|g: u64| #[trigger] space.is_goal(g) && reaches(&space, 0, g, c);
        let wk = choose|wk: Walk| #[trigger]
            is_walk(&space, 0, wk) && walk_end(0, wk) == g && walk_cost(wk) == c;
        lemma_uniform_walk(&space, w, wk);
        assert(w * d <= w * wk.len()) by (nonlinear_arith)
            requires
                d <= wk.len(),
        ;
    }
    assert(least_goal_cost(&space, 0, (w * d) as nat));
}

/// Tiling a grid of the single weight `v` five times gives a grid of five
/// rows and columns that holds `((v + i + j - 1) mod 9) + 1` in row `i` and
/// column `j`.
pub proof fn lemma_tile_single_cell(grid: &Grid, tiled: &Grid, v: u64)
    requires
        grid.wf(),
        grid.height() == 1,
        grid.width() == 1,
        grid.weight(0, 0) == v,
        is_tiling(grid, 5, tiled),
    ensures
        tiled.height() == 5,
        tiled.width() == 5,
        forall|i: int, j: int|
            0 <= i < 5 && 0 <= j < 5 ==> #[trigger] tiled.weight(i, j) == (v + i + j - 1) % 9 + 1,
{
    assert forall|i: int, j: int| 0 <= i < 5 && 0 <= j < 5 implies #[trigger] tiled.weight(i, j)
        == (v + i + j - 1) % 9 + 1 by {
        assert(tiled.in_grid(i, j));
    }
}

/// The same walk, each step `k` cheaper.
spec fn lowered(wk: Walk, k: u64) -> Walk {
    wk.map_values(|s: (u64, u64)| (s.0, (s.1 - k) as u64))
}

proof fn lemma_lowered_walk(space: &GridSpace, raised: &GridSpace, k: u64, from: u64, wk: Walk)
    requires
        space.grid.wf(),
        raised.grid.wf(),
        space.grid.height() == raised.grid.height(),
        space.grid.width() == raised.grid.width(),
        forall|i: int, j: int| #[trigger]
            space.grid.in_grid(i, j) ==> raised.grid.weight(i, j) == space.grid.weight(i, j) + k,
        is_walk(raised, from, wk),
    ensures
        is_walk(space, from, lowered(wk, k)),
        walk_end(from, lowered(wk, k)) == walk_end(from, wk),
        walk_cost(lowered(wk, k)) <= walk_cost(wk),
    decreases wk.len(),
{
    if wk.len() > 0 {
        let p = wk.drop_last();
        lemma_lowered_walk(space, raised, k, from, p);
        assert(lowered(wk, k).drop_last() =~= lowered(p, k));
        let t = wk.last().0;
        lemma_key_cell(space.grid.height(), space.grid.width(), t as int);
        assert(space.grid.in_grid(space.row_of(t), space.col_of(t)));
    }
}

/// Adding a positive constant to every weight of a grid never lowers what the
/// search returns, where nothing counts as more than any cost.
pub proof fn lemma_raised_weights(
    grid: &Grid,
    raised: &Grid,
    k: u64,
    start: (int, int),
    goal: (int, int),
    r: Option<u64>,
    r2: Option<u64>,
)
    requires
        grid.wf(),
        raised.wf(),
        grid.height() == raised.height(),
        grid.width() == raised.width(),
        k > 0,
        forall|i: int, j: int| #[trigger]
            grid.in_grid(i, j) ==> raised.weight(i, j) == grid.weight(i, j) + k,
        grid.in_grid(start.0, start.1),
        grid.in_grid(goal.0, goal.1),
        is_grid_answer(grid, start, goal, r),
        is_grid_answer(raised, start, goal, r2),
    ensures
        match (r, r2) {
            (Some(a), Some(b)) => a <= b,
            (None, Some(_)) => false,
            _ => true,
        },
{
    if let Some(b) = r2 {
        let to = cell_key(grid.width(), goal.0, goal.1) as u64;
        let from = cell_key(grid.width(), start.0, start.1) as u64;
        let space = GridSpace { grid, goal: to };
        let space2 = GridSpace { grid: raised, goal: to };
        assert(reaches_goal(&space2, from, b as nat));
        let g = choose|g: u64| #[trigger] space2.is_goal(g) && reaches(&space2, from, g, b as nat);
        let wk = choose|wk: Walk| #[trigger]
            is_walk(&space2, from, wk) && walk_end(from, wk) == g && walk_cost(wk) == b as nat;
        lemma_lowered_walk(&space, &space2, k, from, wk);
        let low = lowered(wk, k);
        assert(reaches(&space, from, g, walk_cost(low)));
        assert(space.is_goal(g));
        assert(reaches_goal(&space, from, walk_cost(low)));
    }
}

} // verus!
