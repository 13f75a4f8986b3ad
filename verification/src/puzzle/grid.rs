//! The mathematical model of a sliding-tile grid and the measures taken on it.
//!
//! A grid is a sequence of rows. On an `n` by `n` grid the tile `x` (for
//! `x > 0`) is at home in row `(x - 1) / n`, column `(x - 1) % n`; the value
//! `0` marks the gap, whose home is the last cell.

use vstd::prelude::*;

verus! {

pub type Grid = Seq<Seq<usize>>;

/// The grid held by a vector of rows.
pub open spec fn grid_of(rows: Seq<Vec<usize>>) -> Grid {
    Seq::new(rows.len(), |i: int| rows[i]@)
}

/// Every row reaches at least as far as there are rows.
pub open spec fn covers_square(g: Grid) -> bool {
    forall|i: int| 0 <= i < g.len() ==> (#[trigger] g[i]).len() >= g.len()
}

/// Every row is exactly as long as there are rows.
pub open spec fn is_square(g: Grid) -> bool {
    forall|i: int| 0 <= i < g.len() ==> (#[trigger] g[i]).len() == g.len()
}

pub open spec fn span(a: int, b: int) -> int {
    if a <= b {
        b - a
    } else {
        a - b
    }
}

/// How far cell `(i, j)` is from the home of tile `x` on a grid of side `n`,
/// in rows plus columns. The gap counts for nothing.
pub open spec fn home_distance(x: int, n: int, i: int, j: int) -> int {
    if x == 0 {
        0
    } else {
        span(i, (x - 1) / n) + span(j, (x - 1) % n)
    }
}

/// How far the tile in cell `(i, j)` is from home.
pub open spec fn tile_distance(g: Grid, i: int, j: int) -> int {
    home_distance(g[i][j] as int, g.len() as int, i, j)
}

/// The distances of the first `j` tiles of row `i`, summed.
pub open spec fn row_distance(g: Grid, i: int, j: int) -> int
    decreases j,
{
    if j <= 0 {
        0
    } else {
        row_distance(g, i, j - 1) + tile_distance(g, i, j - 1)
    }
}

/// The distances of the tiles in the first `i` rows, summed.
pub open spec fn rows_distance(g: Grid, i: int) -> int
    decreases i,
{
    if i <= 0 {
        0
    } else {
        rows_distance(g, i - 1) + row_distance(g, i - 1, g.len() as int)
    }
}

/// The Manhattan distance of a grid: the sum over all tiles of their
/// distance from home.
pub open spec fn manhattan_distance(g: Grid) -> int {
    rows_distance(g, g.len() as int)
}

pub proof fn lemma_row_distance_monotonic(g: Grid, i: int, j: int, k: int)
    requires
        g.len() > 0,
        0 <= j <= k,
    ensures
        0 <= row_distance(g, i, j) <= row_distance(g, i, k),
    decreases k,
{
    if k > 0 {
        if j < k {
            lemma_row_distance_monotonic(g, i, j, k - 1);
        } else {
            lemma_row_distance_monotonic(g, i, j - 1, k - 1);
        }
    }
}

pub proof fn lemma_rows_distance_monotonic(g: Grid, i: int, k: int)
    requires
        g.len() > 0,
        0 <= i <= k,
    ensures
        0 <= rows_distance(g, i) <= rows_distance(g, k),
    decreases k,
{
    if k > 0 {
        lemma_row_distance_monotonic(g, k - 1, 0, g.len() as int);
        if i < k {
            lemma_rows_distance_monotonic(g, i, k - 1);
        } else {
            lemma_rows_distance_monotonic(g, i - 1, k - 1);
        }
    }
}

/// A running sum never exceeds the whole.
pub proof fn lemma_partial_distance_bounded(g: Grid, i: int, j: int)
    requires
        0 <= i < g.len(),
        0 <= j <= g.len(),
    ensures
        0 <= rows_distance(g, i) + row_distance(g, i, j) <= manhattan_distance(g),
{
    let n = g.len() as int;
    lemma_row_distance_monotonic(g, i, j, n);
    lemma_rows_distance_monotonic(g, 0, i);
    lemma_rows_distance_monotonic(g, i + 1, n);
}

/// The grid with cell `(i, j)` set to `x`.
pub open spec fn set_cell(g: Grid, i: int, j: int, x: usize) -> Grid {
    g.update(i, g[i].update(j, x))
}

/// The grid after the tile in cell `to` has slid into the gap at `gap`.
pub open spec fn slide(g: Grid, gap: (int, int), to: (int, int)) -> Grid {
    set_cell(set_cell(g, gap.0, gap.1, g[to.0][to.1]), to.0, to.1, 0)
}

/// Two cells that share an edge.
pub open spec fn adjacent(a: (int, int), b: (int, int)) -> bool {
    (a.0 == b.0 && span(a.1, b.1) == 1) || (a.1 == b.1 && span(a.0, b.0) == 1)
}

proof fn lemma_row_distance_same(g: Grid, h: Grid, i: int, j: int)
    requires
        g.len() == h.len(),
        0 <= j,
        forall|c: int| 0 <= c < j ==> g[i][c] == h[i][c],
    ensures
        row_distance(g, i, j) == row_distance(h, i, j),
    decreases j,
{
    if j > 0 {
        lemma_row_distance_same(g, h, i, j - 1);
    }
}

proof fn lemma_row_distance_set(g: Grid, i: int, j: int, x: usize, k: int)
    requires
        0 <= i < g.len(),
        0 <= j < g[i].len(),
        0 <= k <= g[i].len(),
    ensures
        row_distance(set_cell(g, i, j, x), i, k) == row_distance(g, i, k) + if j < k {
            tile_distance(set_cell(g, i, j, x), i, j) - tile_distance(g, i, j)
        } else {
            0
        },
    decreases k,
{
    if k > 0 {
        lemma_row_distance_set(g, i, j, x, k - 1);
    }
}

proof fn lemma_rows_distance_set(g: Grid, i: int, j: int, x: usize, k: int)
    requires
        covers_square(g),
        0 <= i < g.len(),
        0 <= j < g.len(),
        0 <= k <= g.len(),
    ensures
        rows_distance(set_cell(g, i, j, x), k) == rows_distance(g, k) + if i < k {
            tile_distance(set_cell(g, i, j, x), i, j) - tile_distance(g, i, j)
        } else {
            0
        },
    decreases k,
{
    if k > 0 {
        let h = set_cell(g, i, j, x);
        let n = g.len() as int;
        lemma_rows_distance_set(g, i, j, x, k - 1);
        assert(g[i].len() >= n);
        if k - 1 == i {
            lemma_row_distance_set(g, i, j, x, n);
        } else {
            lemma_row_distance_same(g, h, k - 1, n);
        }
    }
}

/// Changing one cell changes the Manhattan distance by what that cell's
/// tile gained or lost.
pub proof fn lemma_set_cell_distance(g: Grid, i: int, j: int, x: usize)
    requires
        covers_square(g),
        0 <= i < g.len(),
        0 <= j < g.len(),
    ensures
        manhattan_distance(set_cell(g, i, j, x)) == manhattan_distance(g) - tile_distance(g, i, j)
            + tile_distance(set_cell(g, i, j, x), i, j),
{
    lemma_rows_distance_set(g, i, j, x, g.len() as int);
}

/// Sliding the tile `x` from `to` into the gap at `gap` takes away the
/// distance it had and adds the distance it has from the gap's cell.
pub proof fn lemma_slide_distance(g: Grid, gap: (int, int), to: (int, int))
    requires
        covers_square(g),
        0 <= gap.0 < g.len(),
        0 <= gap.1 < g.len(),
        0 <= to.0 < g.len(),
        0 <= to.1 < g.len(),
        gap != to,
        g[gap.0][gap.1] == 0,
    ensures
        manhattan_distance(slide(g, gap, to)) == manhattan_distance(g) - home_distance(
            g[to.0][to.1] as int,
            g.len() as int,
            to.0,
            to.1,
        ) + home_distance(g[to.0][to.1] as int, g.len() as int, gap.0, gap.1),
{
    let x = g[to.0][to.1];
    let mid = set_cell(g, gap.0, gap.1, x);
    assert(g[gap.0].len() >= g.len());
    assert(g[to.0].len() >= g.len());
    lemma_set_cell_distance(g, gap.0, gap.1, x);
    assert(covers_square(mid)) by {
        assert forall|r: int| 0 <= r < mid.len() implies (#[trigger] mid[r]).len() >= mid.len() by {
            assert(g[r].len() >= g.len());
        }
    }
    lemma_set_cell_distance(mid, to.0, to.1, 0);
    assert(mid[to.0][to.1] == x);
    assert(tile_distance(mid, to.0, to.1) == tile_distance(g, to.0, to.1));
}

/// Every cell of the square holds a value below the number of cells.
pub open spec fn tiles_in_range(g: Grid) -> bool {
    forall|i: int, j: int|
        0 <= i < g.len() && 0 <= j < g.len() ==> #[trigger] g[i][j] < g.len() * g.len()
}

proof fn lemma_home_in_grid(x: int, n: int)
    requires
        1 <= x < n * n,
        n >= 1,
    ensures
        0 <= (x - 1) / n < n,
        0 <= (x - 1) % n < n,
{
    assert(0 <= (x - 1) / n < n) by (nonlinear_arith)
        requires
            1 <= x < n * n,
            n >= 1,
    ;
    assert(0 <= (x - 1) % n < n) by (nonlinear_arith)
        requires
            1 <= x,
            n >= 1,
    ;
}

proof fn lemma_tile_distance_bounded(g: Grid, i: int, j: int)
    requires
        tiles_in_range(g),
        0 <= i < g.len(),
        0 <= j < g.len(),
    ensures
        0 <= tile_distance(g, i, j) <= 2 * g.len(),
{
    let n = g.len() as int;
    let x = g[i][j] as int;
    if x != 0 {
        lemma_home_in_grid(x, n);
    }
}

proof fn lemma_row_distance_bounded(g: Grid, i: int, j: int)
    requires
        tiles_in_range(g),
        0 <= i < g.len(),
        0 <= j <= g.len(),
    ensures
        0 <= row_distance(g, i, j) <= 2 * g.len() * j,
    decreases j,
{
    let n = g.len() as int;
    if j > 0 {
        lemma_row_distance_bounded(g, i, j - 1);
        lemma_tile_distance_bounded(g, i, j - 1);
        assert(2 * n * (j - 1) + 2 * n == 2 * n * j) by (nonlinear_arith);
    } else {
        assert(2 * n * 0 == 0);
    }
}

proof fn lemma_rows_distance_bounded(g: Grid, i: int)
    requires
        tiles_in_range(g),
        0 <= i <= g.len(),
    ensures
        0 <= rows_distance(g, i) <= 2 * g.len() * g.len() * i,
    decreases i,
{
    let n = g.len() as int;
    if i > 0 {
        lemma_rows_distance_bounded(g, i - 1);
        lemma_row_distance_bounded(g, i - 1, n);
        assert(2 * n * n * (i - 1) + 2 * n * n == 2 * n * n * i) by (nonlinear_arith);
    } else {
        assert(2 * n * n * 0 == 0);
    }
}

/// With every tile in range, no tile is further from home than two sides,
/// so the whole distance stays below two sides per cell.
pub proof fn lemma_manhattan_bounded(g: Grid)
    requires
        tiles_in_range(g),
    ensures
        0 <= manhattan_distance(g) <= 2 * g.len() * g.len() * g.len(),
{
    lemma_rows_distance_bounded(g, g.len() as int);
}

/// How many cells the first `i` rows hold.
pub open spec fn cells_before(g: Grid, i: int) -> int
    decreases i,
{
    if i <= 0 {
        0
    } else {
        cells_before(g, i - 1) + g[i - 1].len()
    }
}

/// The value that the `k`-th cell in reading order holds on a solved grid
/// of side `n`: `1, 2, ..` and the gap last.
pub open spec fn expected_tile(k: int, n: int) -> int {
    (k + 1) % (n * n)
}

pub open spec fn misplaced_at(g: Grid, i: int, j: int) -> int {
    if g[i][j] != expected_tile(cells_before(g, i) + j, g.len() as int) {
        1
    } else {
        0
    }
}

/// How many of the first `j` cells of row `i` hold another value than the
/// solved grid has there.
pub open spec fn row_misplaced(g: Grid, i: int, j: int) -> int
    decreases j,
{
    if j <= 0 {
        0
    } else {
        row_misplaced(g, i, j - 1) + misplaced_at(g, i, j - 1)
    }
}

/// The misplaced cells of the first `i` rows.
pub open spec fn rows_misplaced(g: Grid, i: int) -> int
    decreases i,
{
    if i <= 0 {
        0
    } else {
        rows_misplaced(g, i - 1) + row_misplaced(g, i - 1, g[i - 1].len() as int)
    }
}

/// The Hamming distance of a grid from the solved one: the number of cells,
/// the gap's included, that hold another value than they should.
pub open spec fn misplaced(g: Grid) -> int {
    rows_misplaced(g, g.len() as int)
}

/// A square grid is solved when every cell holds its expected value.
pub open spec fn solved(g: Grid) -> bool {
    forall|i: int, j: int|
        0 <= i < g.len() && 0 <= j < g.len() ==> #[trigger] g[i][j] == expected_tile(
            i * g.len() + j,
            g.len() as int,
        )
}

pub proof fn lemma_cells_before_monotonic(g: Grid, i: int, k: int)
    requires
        0 <= i <= k,
    ensures
        0 <= cells_before(g, i) <= cells_before(g, k),
    decreases k,
{
    if k > 0 {
        if i < k {
            lemma_cells_before_monotonic(g, i, k - 1);
        } else {
            lemma_cells_before_monotonic(g, i - 1, k - 1);
        }
    }
}

pub proof fn lemma_row_misplaced_bounded(g: Grid, i: int, j: int)
    requires
        0 <= j,
    ensures
        0 <= row_misplaced(g, i, j) <= j,
    decreases j,
{
    if j > 0 {
        lemma_row_misplaced_bounded(g, i, j - 1);
    }
}

pub proof fn lemma_rows_misplaced_bounded(g: Grid, i: int)
    requires
        0 <= i,
    ensures
        0 <= rows_misplaced(g, i) <= cells_before(g, i),
    decreases i,
{
    if i > 0 {
        lemma_rows_misplaced_bounded(g, i - 1);
        lemma_row_misplaced_bounded(g, i - 1, g[i - 1].len() as int);
    }
}

pub proof fn lemma_cells_before_square(g: Grid, i: int)
    requires
        is_square(g),
        0 <= i <= g.len(),
    ensures
        cells_before(g, i) == i * g.len(),
    decreases i,
{
    let n = g.len() as int;
    if i > 0 {
        lemma_cells_before_square(g, i - 1);
        assert((i - 1) * n + n == i * n) by (nonlinear_arith);
    } else {
        assert(0 * n == 0);
    }
}

proof fn lemma_row_misplaced_zero(g: Grid, i: int, j: int)
    requires
        0 <= j,
    ensures
        row_misplaced(g, i, j) == 0 <==> forall|c: int| 0 <= c < j ==> misplaced_at(g, i, c) == 0,
    decreases j,
{
    if j > 0 {
        lemma_row_misplaced_zero(g, i, j - 1);
        lemma_row_misplaced_bounded(g, i, j - 1);
    }
}

proof fn lemma_rows_misplaced_zero(g: Grid, i: int)
    requires
        0 <= i,
    ensures
        rows_misplaced(g, i) == 0 <==> forall|r: int, c: int|
            0 <= r < i && 0 <= c < g[r].len() ==> misplaced_at(g, r, c) == 0,
    decreases i,
{
    if i > 0 {
        lemma_rows_misplaced_zero(g, i - 1);
        lemma_rows_misplaced_bounded(g, i - 1);
        lemma_row_misplaced_bounded(g, i - 1, g[i - 1].len() as int);
        lemma_row_misplaced_zero(g, i - 1, g[i - 1].len() as int);
    }
}

/// On a square grid, no cell is misplaced exactly when the grid is solved.
pub proof fn lemma_solved_iff_none_misplaced(g: Grid)
    requires
        is_square(g),
    ensures
        solved(g) <==> misplaced(g) == 0,
{
    let n = g.len() as int;
    lemma_rows_misplaced_zero(g, n);
    assert forall|r: int, c: int| 0 <= r < n && 0 <= c < n implies (misplaced_at(g, r, c) == 0
        <==> g[r][c] == expected_tile(r * n + c, n)) by {
        lemma_cells_before_square(g, r);
    }
    if solved(g) {
        assert forall|r: int, c: int| 0 <= r < n && 0 <= c < g[r].len() implies misplaced_at(
            g,
            r,
            c,
        ) == 0 by {
            assert(g[r].len() == n);
            assert(g[r][c] == expected_tile(r * n + c, n));
        }
    }
    if misplaced(g) == 0 {
        assert forall|i: int, j: int| 0 <= i < n && 0 <= j < n implies #[trigger] g[i][j]
            == expected_tile(i * n + j, n) by {
            assert(g[i].len() == n);
            assert(misplaced_at(g, i, j) == 0);
        }
    }
}

/// The step from one cell's expected value to the next one's.
pub proof fn lemma_expected_tile_step(k: int, m: int)
    requires
        0 <= k,
        0 < m,
    ensures
        (k + 1) % m == if k % m < m - 1 {
            k % m + 1
        } else {
            0
        },
{
    vstd::arithmetic::div_mod::lemma_fundamental_div_mod(k, m);
    vstd::arithmetic::div_mod::lemma_mod_bound(k, m);
    let q = k / m;
    let r = k % m;
    if r < m - 1 {
        assert(k + 1 == q * m + (r + 1)) by (nonlinear_arith)
            requires
                k == m * q + r,
        ;
        vstd::arithmetic::div_mod::lemma_fundamental_div_mod_converse(k + 1, m, q, r + 1);
    } else {
        assert(k + 1 == (q + 1) * m + 0) by (nonlinear_arith)
            requires
                k == m * q + r,
                r == m - 1,
        ;
        vstd::arithmetic::div_mod::lemma_fundamental_div_mod_converse(k + 1, m, q + 1, 0);
    }
}

/// One step of a grid's fingerprint: the fingerprint so far, shifted and
/// taken with the next tile, within a prime modulus.
pub open spec fn mix(so_far: int, tile: int) -> int {
    (so_far * 31 + tile % 0xffff_fffb) % 0xffff_fffb
}

/// The fingerprint after the first `j` tiles of a row.
pub open spec fn row_print(row: Seq<usize>, j: int, so_far: int) -> int
    decreases j,
{
    if j <= 0 {
        so_far
    } else {
        mix(row_print(row, j - 1, so_far), row[j - 1] as int)
    }
}

/// The fingerprint after the first `i` rows.
pub open spec fn rows_print(g: Grid, i: int) -> int
    decreases i,
{
    if i <= 0 {
        0
    } else {
        row_print(g[i - 1], g[i - 1].len() as int, rows_print(g, i - 1))
    }
}

/// A number below 2^32 that equal grids share, by which a grid is found
/// again among many.
pub open spec fn fingerprint(g: Grid) -> int {
    rows_print(g, g.len() as int)
}

pub proof fn lemma_row_print_bounded(row: Seq<usize>, j: int, so_far: int)
    requires
        0 <= so_far < 0xffff_fffb,
    ensures
        0 <= row_print(row, j, so_far) < 0xffff_fffb,
    decreases j,
{
    if j > 0 {
        lemma_row_print_bounded(row, j - 1, so_far);
    }
}

pub proof fn lemma_rows_print_bounded(g: Grid, i: int)
    ensures
        0 <= rows_print(g, i) < 0xffff_fffb,
    decreases i,
{
    if i > 0 {
        lemma_rows_print_bounded(g, i - 1);
        lemma_row_print_bounded(g[i - 1], g[i - 1].len() as int, rows_print(g, i - 1));
    }
}

} // verus!
