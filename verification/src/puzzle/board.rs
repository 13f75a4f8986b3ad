//! A position of the sliding-tile puzzle, with the bookkeeping the search
//! keeps beside it.

use vstd::prelude::*;
use crate::puzzle::grid::{
    Grid, grid_of, is_square, covers_square, home_distance, manhattan_distance, slide, adjacent,
    tiles_in_range, misplaced, solved, cells_before, rows_misplaced, row_misplaced,
    lemma_slide_distance, lemma_manhattan_bounded, lemma_expected_tile_step,
    lemma_cells_before_monotonic, lemma_rows_misplaced_bounded, lemma_row_misplaced_bounded,
    lemma_solved_iff_none_misplaced, fingerprint, rows_print, row_print, lemma_rows_print_bounded,
    lemma_row_print_bounded,
};
use crate::puzzle::solver::{gap_between, manhattan};
use crate::puzzle::text::{grid_text, row_text, push_space, push_line_feed, push_decimal};

verus! {

/// A grid of tiles, the number of moves that led to it, the cell of its
/// gap and its Manhattan distance from the solved grid.
pub struct Board {
    data: Vec<Vec<usize>>,
    moves: usize,
    gap: (usize, usize),
    manhattan: usize,
}

/// What a board holds, as mathematical values.
pub struct BoardView {
    pub grid: Grid,
    pub moves: int,
    pub gap: (int, int),
    pub manhattan: int,
}

impl View for Board {
    type V = BoardView;

    closed spec fn view(&self) -> BoardView {
        BoardView {
            grid: grid_of(self.data@),
            moves: self.moves as int,
            gap: (self.gap.0 as int, self.gap.1 as int),
            manhattan: self.manhattan as int,
        }
    }
}

/// A position of the puzzle whose bookkeeping is right: a square grid of at
/// least one cell, tiles below the number of cells, the gap where the
/// record says and nowhere else, and the recorded distance the true one.
/// The side is small enough for every distance to fit a machine word.
pub open spec fn well_formed(v: BoardView) -> bool {
    let n = v.grid.len() as int;
    &&& n >= 1
    &&& 2 * n * n * n <= usize::MAX
    &&& is_square(v.grid)
    &&& tiles_in_range(v.grid)
    &&& 0 <= v.gap.0 < n
    &&& 0 <= v.gap.1 < n
    &&& forall|i: int, j: int|
        0 <= i < n && 0 <= j < n ==> ((#[trigger] v.grid[i][j] == 0) <==> (i == v.gap.0 && j
            == v.gap.1))
    &&& v.manhattan == manhattan_distance(v.grid)
    &&& 0 <= v.moves
}

/// The weighted estimate by which the search orders boards: three times
/// the distance still to go, plus the moves already made.
pub open spec fn estimate(v: BoardView) -> int {
    3 * v.manhattan + v.moves
}

/// The position reached from `v` by sliding the tile in cell `to` into the gap.
pub open spec fn successor(v: BoardView, to: (int, int)) -> BoardView {
    BoardView {
        grid: slide(v.grid, v.gap, to),
        moves: v.moves + 1,
        gap: to,
        manhattan: manhattan_distance(slide(v.grid, v.gap, to)),
    }
}

/// Whether the tile in cell `to` can slide into the gap of `v`.
pub open spec fn legal_slide(v: BoardView, to: (int, int)) -> bool {
    &&& 0 <= to.0 < v.grid.len()
    &&& 0 <= to.1 < v.grid.len()
    &&& adjacent(v.gap, to)
}

/// The positions one slide away from `v`: the tile below the gap first,
/// then the one above, the one to the right and the one to the left, as
/// far as the grid has them.
pub open spec fn successors(v: BoardView) -> Seq<BoardView> {
    let n = v.grid.len() as int;
    let down = if v.gap.0 != n - 1 {
        seq![successor(v, (v.gap.0 + 1, v.gap.1))]
    } else {
        Seq::empty()
    };
    let up = if v.gap.0 != 0 {
        seq![successor(v, (v.gap.0 - 1, v.gap.1))]
    } else {
        Seq::empty()
    };
    let right = if v.gap.1 != n - 1 {
        seq![successor(v, (v.gap.0, v.gap.1 + 1))]
    } else {
        Seq::empty()
    };
    let left = if v.gap.1 != 0 {
        seq![successor(v, (v.gap.0, v.gap.1 - 1))]
    } else {
        Seq::empty()
    };
    down + up + right + left
}

/// The views of a sequence of boards.
pub open spec fn views(boards: Seq<Board>) -> Seq<BoardView> {
    boards.map_values(|b: Board| b@)
}

/// A copy of a row.
fn copy_row(row: &Vec<usize>) -> (out: Vec<usize>)
    ensures
        out@ == row@,
{
    let mut out: Vec<usize> = Vec::new();
    let mut j: usize = 0;
    while j < row.len()
        invariant
            0 <= j <= row@.len(),
            out@ == row@.subrange(0, j as int),
        decreases row@.len() - j,
    {
        out.push(row[j]);
        assert(out@ == row@.subrange(0, j as int + 1));
        j = j + 1;
    }
    assert(row@.subrange(0, row@.len() as int) == row@);
    out
}

/// A copy of a vector of rows.
fn copy_rows(rows: &Vec<Vec<usize>>) -> (out: Vec<Vec<usize>>)
    ensures
        grid_of(out@) == grid_of(rows@),
{
    let mut out: Vec<Vec<usize>> = Vec::new();
    let mut i: usize = 0;
    while i < rows.len()
        invariant
            0 <= i <= rows@.len(),
            out@.len() == i,
            forall|r: int| 0 <= r < i ==> (#[trigger] out@[r])@ == rows@[r]@,
        decreases rows@.len() - i,
    {
        out.push(copy_row(&rows[i]));
        i = i + 1;
    }
    assert(grid_of(out@) =~= grid_of(rows@));
    out
}

/// A copy of a row with cell `j` set to `x`.
fn copy_row_with(row: &Vec<usize>, j: usize, x: usize) -> (out: Vec<usize>)
    requires
        j < row@.len(),
    ensures
        out@ == row@.update(j as int, x),
{
    let mut out: Vec<usize> = Vec::new();
    let mut c: usize = 0;
    while c < row.len()
        invariant
            j < row@.len(),
            0 <= c <= row@.len(),
            out@ == row@.update(j as int, x).subrange(0, c as int),
        decreases row@.len() - c,
    {
        if c == j {
            out.push(x);
        } else {
            out.push(row[c]);
        }
        assert(out@ == row@.update(j as int, x).subrange(0, c as int + 1));
        c = c + 1;
    }
    assert(row@.update(j as int, x).subrange(0, row@.len() as int) == row@.update(j as int, x));
    out
}

/// The rows after the tile in cell `to` has slid into the gap at `gap`.
fn slid_rows(rows: &Vec<Vec<usize>>, gap: (usize, usize), to: (usize, usize)) -> (out: Vec<
    Vec<usize>,
>)
    requires
        is_square(grid_of(rows@)),
        gap.0 < rows@.len(),
        gap.1 < rows@.len(),
        to.0 < rows@.len(),
        to.1 < rows@.len(),
    ensures
        grid_of(out@) == slide(
            grid_of(rows@),
            (gap.0 as int, gap.1 as int),
            (to.0 as int, to.1 as int),
        ),
{
    let ghost g = grid_of(rows@);
    let ghost target = slide(g, (gap.0 as int, gap.1 as int), (to.0 as int, to.1 as int));
    assert(g[to.0 as int].len() == g.len());
    assert(g[gap.0 as int].len() == g.len());
    let x = rows[to.0][to.1];
    let mut out: Vec<Vec<usize>> = Vec::new();
    let mut i: usize = 0;
    while i < rows.len()
        invariant
            g == grid_of(rows@),
            is_square(g),
            target == slide(g, (gap.0 as int, gap.1 as int), (to.0 as int, to.1 as int)),
            x == g[to.0 as int][to.1 as int],
            gap.0 < rows@.len(),
            gap.1 < rows@.len(),
            to.0 < rows@.len(),
            to.1 < rows@.len(),
            0 <= i <= rows@.len(),
            out@.len() == i,
            forall|r: int| 0 <= r < i ==> (#[trigger] out@[r])@ == target[r],
        decreases rows@.len() - i,
    {
        assert(g[i as int].len() == g.len());
        let row = if i == gap.0 {
            copy_row_with(&rows[i], gap.1, x)
        } else {
            copy_row(&rows[i])
        };
        let row = if i == to.0 {
            copy_row_with(&row, to.1, 0)
        } else {
            row
        };
        assert(row@ == target[i as int]);
        out.push(row);
        i = i + 1;
    }
    assert(grid_of(out@) =~= target);
    out
}

/// A slide keeps the grid square and its tiles in range, and leaves the gap
/// in the cell the tile came from and nowhere else.
pub proof fn lemma_successor_well_formed(v: BoardView, to: (int, int))
    requires
        well_formed(v),
        legal_slide(v, to),
    ensures
        well_formed(successor(v, to)),
        successor(v, to).manhattan == v.manhattan - home_distance(
            v.grid[to.0][to.1] as int,
            v.grid.len() as int,
            to.0,
            to.1,
        ) + home_distance(v.grid[to.0][to.1] as int, v.grid.len() as int, v.gap.0, v.gap.1),
        v.manhattan >= home_distance(
            v.grid[to.0][to.1] as int,
            v.grid.len() as int,
            to.0,
            to.1,
        ),
        v.grid[to.0][to.1] >= 1,
        successor(v, to).manhattan <= usize::MAX,
{
    let g = v.grid;
    let n = g.len() as int;
    let h = slide(g, v.gap, to);
    assert(g[to.0].len() == n);
    assert(g[v.gap.0].len() == n);
    assert(g[v.gap.0][v.gap.1] == 0);
    assert(g[to.0][to.1] != 0);
    assert(covers_square(g)) by {
        assert forall|i: int| 0 <= i < g.len() implies (#[trigger] g[i]).len() >= g.len() by {
            assert(g[i].len() == g.len());
        }
    }
    lemma_slide_distance(g, v.gap, to);
    assert(is_square(h)) by {
        assert forall|i: int| 0 <= i < h.len() implies (#[trigger] h[i]).len() == h.len() by {
            assert(g[i].len() == g.len());
        }
    }
    assert(tiles_in_range(h)) by {
        assert forall|i: int, j: int| 0 <= i < h.len() && 0 <= j < h.len() implies #[trigger] h[i][j]
            < h.len() * h.len() by {
            assert(g[i].len() == g.len());
            assert(g[i][j] < n * n);
            assert(g[to.0][to.1] < n * n);
            assert(0 < n * n) by (nonlinear_arith)
                requires
                    n >= 1,
            ;
        }
    }
    assert forall|i: int, j: int| 0 <= i < n && 0 <= j < n implies ((#[trigger] h[i][j] == 0) <==> (
    i == to.0 && j == to.1)) by {
        assert(g[i].len() == g.len());
        assert((g[i][j] == 0) <==> (i == v.gap.0 && j == v.gap.1));
    }
    lemma_manhattan_bounded(h);
    crate::puzzle::grid::lemma_partial_distance_bounded(g, to.0, to.1 + 1);
    crate::puzzle::grid::lemma_partial_distance_bounded(g, to.0, to.1);
    crate::puzzle::grid::lemma_rows_distance_monotonic(g, 0, to.0);
    crate::puzzle::grid::lemma_row_distance_monotonic(g, to.0, 0, to.1);
    assert(2 * h.len() * h.len() * h.len() == 2 * n * n * n);
}

/// A well-formed position has as many cells as a machine word can count.
pub proof fn lemma_well_formed_countable(v: BoardView)
    requires
        well_formed(v),
    ensures
        v.grid.len() * v.grid.len() <= usize::MAX,
        cells_before(v.grid, v.grid.len() as int) == v.grid.len() * v.grid.len(),
{
    let n = v.grid.len() as int;
    crate::puzzle::grid::lemma_cells_before_square(v.grid, n);
    assert(n * n <= 2 * n * n * n) by (nonlinear_arith)
        requires
            n >= 1,
    ;
}

/// The grid of a well-formed position says where its gap is.
pub proof fn lemma_gap_unique(a: BoardView, b: BoardView)
    requires
        well_formed(a),
        well_formed(b),
        a.grid == b.grid,
    ensures
        a.gap == b.gap,
{
    assert(a.grid[a.gap.0][a.gap.1] == 0);
    assert(b.grid[a.gap.0][a.gap.1] == 0);
}

/// The listed successors are the positions that a legal slide leads to:
/// each of them comes from one, and each legal slide leads to one of them.
pub proof fn lemma_successors_are_legal_slides(v: BoardView)
    requires
        well_formed(v),
    ensures
        forall|k: int|
            0 <= k < successors(v).len() ==> exists|to: (int, int)|
                legal_slide(v, to) && #[trigger] successors(v)[k] == successor(v, to),
        forall|to: (int, int)| #[trigger]
            legal_slide(v, to) ==> exists|k: int|
                0 <= k < successors(v).len() && #[trigger] successors(v)[k] == successor(v, to),
{
    let n = v.grid.len() as int;
    let down = (v.gap.0 + 1, v.gap.1);
    let up = (v.gap.0 - 1, v.gap.1);
    let right = (v.gap.0, v.gap.1 + 1);
    let left = (v.gap.0, v.gap.1 - 1);
    let s = successors(v);
    let d: int = if v.gap.0 != n - 1 { 1 } else { 0 };
    let u: int = if v.gap.0 != 0 { 1 } else { 0 };
    let r: int = if v.gap.1 != n - 1 { 1 } else { 0 };
    let l: int = if v.gap.1 != 0 { 1 } else { 0 };
    assert(s.len() == d + u + r + l);
    if d == 1 {
        assert(s[0] == successor(v, down));
        assert(legal_slide(v, down));
    }
    if u == 1 {
        assert(s[d] == successor(v, up));
        assert(legal_slide(v, up));
    }
    if r == 1 {
        assert(s[d + u] == successor(v, right));
        assert(legal_slide(v, right));
    }
    if l == 1 {
        assert(s[d + u + r] == successor(v, left));
        assert(legal_slide(v, left));
    }
    assert forall|k: int| 0 <= k < s.len() implies exists|to: (int, int)|
        legal_slide(v, to) && #[trigger] s[k] == successor(v, to) by {
        if d == 1 && k == 0 {
            assert(legal_slide(v, down) && s[k] == successor(v, down));
        } else if u == 1 && k == d {
            assert(legal_slide(v, up) && s[k] == successor(v, up));
        } else if r == 1 && k == d + u {
            assert(legal_slide(v, right) && s[k] == successor(v, right));
        } else {
            assert(l == 1 && k == d + u + r);
            assert(legal_slide(v, left) && s[k] == successor(v, left));
        }
    }
    assert forall|to: (int, int)| #[trigger] legal_slide(v, to) implies exists|k: int|
        0 <= k < s.len() && #[trigger] s[k] == successor(v, to) by {
        if to == down {
            assert(s[0] == successor(v, to));
        } else if to == up {
            assert(s[d] == successor(v, to));
        } else if to == right {
            assert(s[d + u] == successor(v, to));
        } else {
            assert(to == left);
            assert(s[d + u + r] == successor(v, to));
        }
    }
}

impl Board {
    pub open spec fn wf(&self) -> bool {
        well_formed(self@)
    }

    /// A board from its parts, taken as they are.
    pub fn new(data: Vec<Vec<usize>>, moves: usize, gap: (usize, usize), manhattan: usize) -> (b:
        Board)
        ensures
            b@ == (BoardView {
                grid: grid_of(data@),
                moves: moves as int,
                gap: (gap.0 as int, gap.1 as int),
                manhattan: manhattan as int,
            }),
    {
        Board { data, moves, gap, manhattan }
    }

    /// The recorded distance after the tile in `new_gap` has slid into the
    /// gap: what that tile was from home is taken off, what it is from home
    /// in the gap's cell is put on.
    pub fn updated_manhattan(&self, new_gap: (usize, usize)) -> (manh: usize)
        requires
            self@.grid.len() >= 1,
            new_gap.0 < self@.grid.len(),
            new_gap.1 < self@.grid[new_gap.0 as int].len(),
            self@.grid[new_gap.0 as int][new_gap.1 as int] >= 1,
            self@.manhattan >= home_distance(
                self@.grid[new_gap.0 as int][new_gap.1 as int] as int,
                self@.grid.len() as int,
                new_gap.0 as int,
                new_gap.1 as int,
            ),
            self@.manhattan - home_distance(
                self@.grid[new_gap.0 as int][new_gap.1 as int] as int,
                self@.grid.len() as int,
                new_gap.0 as int,
                new_gap.1 as int,
            ) + home_distance(
                self@.grid[new_gap.0 as int][new_gap.1 as int] as int,
                self@.grid.len() as int,
                self@.gap.0,
                self@.gap.1,
            ) <= usize::MAX,
        ensures
            manh == self@.manhattan - home_distance(
                self@.grid[new_gap.0 as int][new_gap.1 as int] as int,
                self@.grid.len() as int,
                new_gap.0 as int,
                new_gap.1 as int,
            ) + home_distance(
                self@.grid[new_gap.0 as int][new_gap.1 as int] as int,
                self@.grid.len() as int,
                self@.gap.0,
                self@.gap.1,
            ),
    {
        let x = self.data[new_gap.0][new_gap.1];
        let n = self.data.len();
        let row = (x - 1) / n;
        let col = (x - 1) % n;
        let mut manh = self.manhattan;
        manh = manh - (gap_between(new_gap.0, row) + gap_between(new_gap.1, col));
        manh = manh + (gap_between(self.gap.0, row) + gap_between(self.gap.1, col));
        manh
    }

    /// The moves that led to this board.
    pub fn dist_from_start(&self) -> (moves: usize)
        ensures
            moves == self@.moves,
    {
        self.moves
    }

    /// Records that this board is one move past `better`.
    pub fn update_from_start(&mut self, better: &Board)
        requires
            better@.moves < usize::MAX,
        ensures
            final(self)@ == (BoardView { moves: better@.moves + 1, ..old(self)@ }),
    {
        self.moves = better.dist_from_start() + 1
    }

    /// The moves a neighbour reached through this board would have.
    pub fn possible(&self) -> (moves: usize)
        requires
            self@.moves < usize::MAX,
        ensures
            moves == self@.moves + 1,
    {
        self.dist_from_start() + 1
    }

    /// Three times the recorded distance: the weight the search gives to
    /// what is still to go.
    pub fn to_end(&self) -> (weight: usize)
        requires
            3 * self@.manhattan <= usize::MAX,
        ensures
            weight == 3 * self@.manhattan,
    {
        3 * self.manhattan
    }

    /// The estimate as a machine word.
    pub fn heuristics(&self) -> (h: usize)
        requires
            estimate(self@) <= usize::MAX,
        ensures
            h == estimate(self@),
    {
        self.to_end() + self.dist_from_start()
    }

    /// The estimate, taken wide enough to hold it for every board.
    pub fn priority(&self) -> (p: u128)
        ensures
            p == estimate(self@),
    {
        let m: u128 = self.manhattan as u128;
        let g: u128 = self.moves as u128;
        3 * m + g
    }

    /// The number of cells that hold another value than the solved grid
    /// has there, rows taken as long as they are.
    pub fn hamming(&self) -> (count: usize)
        requires
            self@.grid.len() * self@.grid.len() <= usize::MAX,
            cells_before(self@.grid, self@.grid.len() as int) <= usize::MAX,
        ensures
            count == misplaced(self@.grid),
    {
        let ghost g = self@.grid;
        let n = self.data.len();
        let mut hamming: usize = 0;
        let mut expected: usize = 0;
        proof {
            if n != 0 {
                assert(n * n >= 1) by (nonlinear_arith)
                    requires
                        n >= 1,
                ;
                assert(0int % (n * n) == 0);
            }
        }
        let max: usize = if n != 0 {
            n * n - 1
        } else {
            0
        };
        let mut i: usize = 0;
        while i < n
            invariant
                g == self@.grid,
                n == g.len(),
                n * n <= usize::MAX,
                cells_before(g, n as int) <= usize::MAX,
                n != 0 ==> max == n * n - 1,
                0 <= i <= n,
                hamming == rows_misplaced(g, i as int),
                n != 0 ==> expected == cells_before(g, i as int) % (n * n),
            decreases n - i,
        {
            let row = &self.data[i];
            let len = row.len();
            let ghost before = hamming;
            let mut j: usize = 0;
            proof {
                lemma_cells_before_monotonic(g, i as int, i as int + 1);
                lemma_cells_before_monotonic(g, i as int + 1, n as int);
                lemma_rows_misplaced_bounded(g, i as int);
            }
            while j < len
                invariant
                    g == self@.grid,
                    n == g.len(),
                    0 < n,
                    n * n <= usize::MAX,
                    max == n * n - 1,
                    0 <= i < n,
                    row@ == g[i as int],
                    len == row@.len(),
                    0 <= j <= len,
                    0 <= cells_before(g, i as int),
                    cells_before(g, i as int) + len <= usize::MAX,
                    before == rows_misplaced(g, i as int),
                    before <= cells_before(g, i as int),
                    hamming == before + row_misplaced(g, i as int, j as int),
                    expected == (cells_before(g, i as int) + j) % (n * n),
                decreases len - j,
            {
                proof {
                    lemma_expected_tile_step(cells_before(g, i as int) + j, n * n);
                    lemma_row_misplaced_bounded(g, i as int, j as int);
                }
                if expected < max {
                    expected = expected + 1;
                } else {
                    expected = 0;
                }
                if row[j] != expected {
                    hamming = hamming + 1;
                }
                j = j + 1;
            }
            i = i + 1;
        }
        hamming
    }

    /// Whether no cell is misplaced; on a square grid, whether it is solved.
    pub fn is_goal(&self) -> (goal: bool)
        requires
            self@.grid.len() * self@.grid.len() <= usize::MAX,
            cells_before(self@.grid, self@.grid.len() as int) <= usize::MAX,
        ensures
            goal == (misplaced(self@.grid) == 0),
            is_square(self@.grid) ==> goal == solved(self@.grid),
    {
        proof {
            if is_square(self@.grid) {
                lemma_solved_iff_none_misplaced(self@.grid);
            }
        }
        self.hamming() == 0
    }

    /// The board one slide on: the tile in cell `to` moved into the gap.
    fn slid(&self, to: (usize, usize)) -> (next: Board)
        requires
            self.wf(),
            self@.moves < usize::MAX,
            legal_slide(self@, (to.0 as int, to.1 as int)),
        ensures
            next@ == successor(self@, (to.0 as int, to.1 as int)),
            next.wf(),
    {
        proof {
            lemma_successor_well_formed(self@, (to.0 as int, to.1 as int));
        }
        assert(self@.grid[to.0 as int].len() == self@.grid.len());
        Board {
            data: slid_rows(&self.data, self.gap, to),
            moves: self.moves + 1,
            gap: to,
            manhattan: self.updated_manhattan(to),
        }
    }

    /// The boards one slide away, each with one move more and its own
    /// distance: below the gap, above it, right of it, left of it.
    pub fn nearby(current: &Board) -> (near: Vec<Board>)
        requires
            current.wf(),
            current@.moves < usize::MAX,
        ensures
            views(near@) == successors(current@),
            forall|k: int| 0 <= k < near@.len() ==> (#[trigger] near@[k]).wf(),
    {
        let mut near: Vec<Board> = Vec::new();
        let gap = current.gap;
        let last = current.data.len() - 1;
        if gap.0 != last {
            near.push(current.slid((gap.0 + 1, gap.1)));
        }
        if gap.0 != 0 {
            near.push(current.slid((gap.0 - 1, gap.1)));
        }
        if gap.1 != last {
            near.push(current.slid((gap.0, gap.1 + 1)));
        }
        if gap.1 != 0 {
            near.push(current.slid((gap.0, gap.1 - 1)));
        }
        assert(views(near@) =~= successors(current@));
        near
    }

    /// Whether two boards hold the same grid, whatever their bookkeeping.
    pub fn same_tiles(&self, other: &Board) -> (same: bool)
        ensures
            same == (self@.grid == other@.grid),
    {
        if self.data.len() != other.data.len() {
            return false;
        }
        let mut i: usize = 0;
        while i < self.data.len()
            invariant
                self@.grid.len() == other@.grid.len(),
                0 <= i <= self@.grid.len(),
                forall|r: int| 0 <= r < i ==> #[trigger] self@.grid[r] == other@.grid[r],
            decreases self@.grid.len() - i,
        {
            let a = &self.data[i];
            let b = &other.data[i];
            assert(a@ == self@.grid[i as int]);
            assert(b@ == other@.grid[i as int]);
            if a.len() != b.len() {
                return false;
            }
            let mut j: usize = 0;
            while j < a.len()
                invariant
                    0 <= i < self@.grid.len(),
                    a@ == self@.grid[i as int],
                    b@ == other@.grid[i as int],
                    a@.len() == b@.len(),
                    0 <= j <= a@.len(),
                    forall|c: int| 0 <= c < j ==> #[trigger] a@[c] == b@[c],
                decreases a@.len() - j,
            {
                if a[j] != b[j] {
                    assert(self@.grid[i as int][j as int] != other@.grid[i as int][j as int]);
                    return false;
                }
                j = j + 1;
            }
            assert(a@ =~= b@);
            i = i + 1;
        }
        assert(self@.grid =~= other@.grid);
        true
    }

    /// A copy of the grid's rows.
    pub fn tiles(&self) -> (rows: Vec<Vec<usize>>)
        ensures
            grid_of(rows@) == self@.grid,
    {
        copy_rows(&self.data)
    }

    /// The board as text: the tiles of each row in decimal with one space
    /// between them, each row on a line of its own.
    pub fn to_string(&self) -> (text: String)
        requires
            covers_square(self@.grid),
        ensures
            text@ == grid_text(self@.grid, self@.grid.len() as int),
    {
        let ghost g = self@.grid;
        let n = self.data.len();
        let mut repr = String::new();
        let mut i: usize = 0;
        while i < n
            invariant
                g == self@.grid,
                covers_square(g),
                n == g.len(),
                0 <= i <= n,
                repr@ == grid_text(g, i as int),
            decreases n - i,
        {
            let ghost done = repr@;
            let mut j: usize = 0;
            assert(g[i as int].len() >= n);
            while j < n
                invariant
                    g == self@.grid,
                    n == g.len(),
                    0 <= i < n,
                    g[i as int].len() >= n,
                    0 <= j <= n,
                    repr@ == done + row_text(g[i as int], j as int),
                decreases n - j,
            {
                let ghost before = repr@;
                if j != 0 {
                    push_space(&mut repr);
                }
                push_decimal(&mut repr, self.data[i][j]);
                proof {
                    let row = g[i as int];
                    assert(self.data@[i as int]@[j as int] == row[j as int]);
                    if j == 0 {
                        assert(row_text(row, 0) =~= Seq::<char>::empty());
                        assert(repr@ =~= done + row_text(row, 1));
                    } else {
                        assert(repr@ =~= done + row_text(row, j as int + 1));
                    }
                }
                j = j + 1;
            }
            push_line_feed(&mut repr);
            assert(repr@ =~= grid_text(g, i as int + 1));
            i = i + 1;
        }
        repr
    }

    /// Whether the rows form a square of at least one cell whose side is
    /// small enough for every distance to fit a machine word.
    fn has_sound_shape(&self) -> (ok: bool)
        ensures
            ok == (self@.grid.len() >= 1 && 2 * self@.grid.len() * self@.grid.len()
                * self@.grid.len() <= usize::MAX && is_square(self@.grid)),
    {
        let n = self.data.len();
        if n == 0 {
            return false;
        }
        if n > 0x40_0000 {
            assert(2 * n * n * n > usize::MAX) by (nonlinear_arith)
                requires
                    n > 0x40_0000,
            ;
            return false;
        }
        let wide: u128 = n as u128;
        assert(2 * wide * wide <= 0x2000_0000_0000 && 2 * wide * wide * wide
            <= 0x8_0000_0000_0000_0000) by (nonlinear_arith)
            requires
                0 <= wide <= 0x40_0000,
        ;
        if 2 * wide * wide * wide > usize::MAX as u128 {
            return false;
        }
        let mut i: usize = 0;
        while i < n
            invariant
                n == self@.grid.len(),
                0 <= i <= n,
                forall|r: int| 0 <= r < i ==> (#[trigger] self@.grid[r]).len() == n,
            decreases n - i,
        {
            if self.data[i].len() != n {
                assert(self@.grid[i as int].len() != n);
                return false;
            }
            i = i + 1;
        }
        true
    }

    /// Whether every tile of a square grid is below the number of cells and
    /// the gap is where the record says and nowhere else.
    fn has_sound_tiles(&self) -> (ok: bool)
        requires
            self@.grid.len() >= 1,
            2 * self@.grid.len() * self@.grid.len() * self@.grid.len() <= usize::MAX,
            is_square(self@.grid),
            self@.gap.0 < self@.grid.len(),
            self@.gap.1 < self@.grid.len(),
        ensures
            ok == (tiles_in_range(self@.grid) && forall|i: int, j: int|
                0 <= i < self@.grid.len() && 0 <= j < self@.grid.len() ==> ((
                #[trigger] self@.grid[i][j] == 0) <==> (i == self@.gap.0 && j == self@.gap.1))),
    {
        let ghost g = self@.grid;
        let n = self.data.len();
        assert(n * n <= 2 * n * n * n) by (nonlinear_arith)
            requires
                n >= 1,
        ;
        let cells = n * n;
        let mut i: usize = 0;
        while i < n
            invariant
                g == self@.grid,
                n == g.len(),
                is_square(g),
                cells == n * n,
                0 <= i <= n,
                forall|r: int, c: int|
                    0 <= r < i && 0 <= c < n ==> #[trigger] g[r][c] < cells && ((g[r][c] == 0) <==> (
                    r == self@.gap.0 && c == self@.gap.1)),
            decreases n - i,
        {
            let mut j: usize = 0;
            assert(g[i as int].len() == n);
            while j < n
                invariant
                    g == self@.grid,
                    n == g.len(),
                    g[i as int].len() == n,
                    cells == n * n,
                    0 <= i < n,
                    0 <= j <= n,
                    forall|c: int|
                        0 <= c < j ==> #[trigger] g[i as int][c] < cells && ((g[i as int][c] == 0)
                            <==> (i == self@.gap.0 && c == self@.gap.1)),
                decreases n - j,
            {
                let x = self.data[i][j];
                assert(x == g[i as int][j as int]);
                let here = i == self.gap.0 && j == self.gap.1;
                if x >= cells || (x == 0) != here {
                    return false;
                }
                j = j + 1;
            }
            i = i + 1;
        }
        true
    }

    /// Whether the board is well formed.
    pub fn validate(&self) -> (ok: bool)
        ensures
            ok == self.wf(),
    {
        if !self.has_sound_shape() {
            return false;
        }
        let n = self.data.len();
        if self.gap.0 >= n || self.gap.1 >= n {
            return false;
        }
        if !self.has_sound_tiles() {
            return false;
        }
        proof {
            lemma_manhattan_bounded(self@.grid);
            assert(covers_square(self@.grid)) by {
                assert forall|i: int| 0 <= i < self@.grid.len() implies (#[trigger] self@.grid[i]).len()
                    >= self@.grid.len() by {
                    assert(self@.grid[i].len() == self@.grid.len());
                }
            }
            assert(2 * self@.grid.len() * self@.grid.len() * self@.grid.len() == 2 * n * n * n);
        }
        manhattan(&self.data) == self.manhattan
    }

    /// The fingerprint of the board's grid.
    pub fn fingerprint(&self) -> (print: u64)
        ensures
            print == fingerprint(self@.grid),
    {
        let ghost g = self@.grid;
        let mut print: u64 = 0;
        let mut i: usize = 0;
        while i < self.data.len()
            invariant
                g == self@.grid,
                0 <= i <= g.len(),
                print == rows_print(g, i as int),
            decreases g.len() - i,
        {
            let row = &self.data[i];
            let ghost before = print;
            let mut j: usize = 0;
            proof {
                lemma_rows_print_bounded(g, i as int);
            }
            while j < row.len()
                invariant
                    row@ == g[i as int],
                    0 <= j <= row@.len(),
                    0 <= before < 0xffff_fffb,
                    print == row_print(row@, j as int, before as int),
                decreases row@.len() - j,
            {
                proof {
                    lemma_row_print_bounded(row@, j as int, before as int);
                }
                print = (print * 31 + (row[j] as u64) % 0xffff_fffb) % 0xffff_fffb;
                j = j + 1;
            }
            i = i + 1;
        }
        print
    }

    /// The cell of the gap, as recorded.
    pub fn blank(&self) -> (at: (usize, usize))
        ensures
            at.0 == self@.gap.0,
            at.1 == self@.gap.1,
    {
        self.gap
    }
}

impl Clone for Board {
    fn clone(&self) -> (copy: Board)
        ensures
            copy@ == self@,
    {
        Board {
            data: copy_rows(&self.data),
            moves: self.moves,
            gap: self.gap,
            manhattan: self.manhattan,
        }
    }
}

} // verus!
