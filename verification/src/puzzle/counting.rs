//! Why a search over grids comes to an end: the well-formed grids of one
//! side can be numbered below a bound, different grids by different
//! numbers, so no list of distinct grids is longer than that bound.

use vstd::prelude::*;
use vstd::arithmetic::power::{pow, lemma_pow_positive};
use vstd::arithmetic::div_mod::lemma_fundamental_div_mod_converse;
use vstd::set_lib::{set_int_range, lemma_int_range, lemma_len_subset};
use crate::puzzle::grid::{Grid, is_square, tiles_in_range};

verus! {

/// The number that the first `k` digits spell, the first digit weighing most.
pub open spec fn digits_code(d: Seq<int>, k: int, base: int) -> int
    decreases k,
{
    if k <= 0 {
        0
    } else {
        digits_code(d, k - 1, base) * base + d[k - 1]
    }
}

pub open spec fn digits_below(d: Seq<int>, k: int, base: int) -> bool {
    forall|i: int| 0 <= i < k ==> 0 <= #[trigger] d[i] < base
}

proof fn lemma_pow_step(base: int, k: int)
    requires
        k >= 1,
    ensures
        pow(base, k as nat) == base * pow(base, (k - 1) as nat),
{
    reveal(pow);
}

pub proof fn lemma_code_bounded(d: Seq<int>, k: int, base: int)
    requires
        base >= 1,
        0 <= k,
        digits_below(d, k, base),
    ensures
        0 <= digits_code(d, k, base) < pow(base, k as nat),
    decreases k,
{
    if k > 0 {
        lemma_code_bounded(d, k - 1, base);
        lemma_pow_step(base, k);
        let c = digits_code(d, k - 1, base);
        let p = pow(base, (k - 1) as nat);
        let x = d[k - 1];
        assert(0 <= c * base + x < base * p) by (nonlinear_arith)
            requires
                0 <= c < p,
                0 <= x < base,
        ;
    } else {
        reveal(pow);
    }
}

pub proof fn lemma_code_injective(d: Seq<int>, e: Seq<int>, k: int, base: int)
    requires
        base >= 1,
        0 <= k,
        digits_below(d, k, base),
        digits_below(e, k, base),
        digits_code(d, k, base) == digits_code(e, k, base),
    ensures
        forall|i: int| 0 <= i < k ==> d[i] == e[i],
    decreases k,
{
    if k > 0 {
        let x = digits_code(d, k, base);
        lemma_fundamental_div_mod_converse(x, base, digits_code(d, k - 1, base), d[k - 1]);
        lemma_fundamental_div_mod_converse(x, base, digits_code(e, k - 1, base), e[k - 1]);
        lemma_code_injective(d, e, k - 1, base);
    }
}

/// The cells of a row as digits.
pub open spec fn row_digits(row: Seq<usize>) -> Seq<int> {
    Seq::new(row.len(), |j: int| row[j] as int)
}

/// The base in which a row of side `n` is spelt: the number of cells.
pub open spec fn cell_base(n: nat) -> int {
    n as int * n as int
}

/// The base in which a grid of side `n` is spelt: the number of rows of
/// that side.
pub open spec fn row_base(n: nat) -> int {
    pow(cell_base(n), n)
}

/// The rows of a grid as digits.
pub open spec fn grid_digits(g: Grid) -> Seq<int> {
    Seq::new(g.len(), |i: int| digits_code(row_digits(g[i]), g.len() as int, cell_base(g.len())))
}

/// The number of a square grid.
pub open spec fn grid_code(g: Grid) -> int {
    digits_code(grid_digits(g), g.len() as int, row_base(g.len()))
}

/// A bound above the number of every well-formed grid of side `n`.
pub open spec fn space_size(n: nat) -> int {
    pow(row_base(n), n)
}

proof fn lemma_grid_digits_below(g: Grid)
    requires
        g.len() >= 1,
        is_square(g),
        tiles_in_range(g),
    ensures
        cell_base(g.len()) >= 1,
        row_base(g.len()) >= 1,
        digits_below(grid_digits(g), g.len() as int, row_base(g.len())),
        forall|i: int|
            0 <= i < g.len() ==> digits_below(
                row_digits(#[trigger] g[i]),
                g.len() as int,
                cell_base(g.len()),
            ),
{
    let n = g.len() as int;
    let b = cell_base(g.len());
    assert(b >= 1) by (nonlinear_arith)
        requires
            n >= 1,
            b == n * n,
    ;
    lemma_pow_positive(b, n as nat);
    assert forall|i: int| 0 <= i < n implies digits_below(row_digits(#[trigger] g[i]), n, b) by {
        assert(g[i].len() == n);
        assert forall|j: int| 0 <= j < n implies 0 <= #[trigger] row_digits(g[i])[j] < b by {
            assert(g[i][j] < n * n);
        }
    }
    assert forall|i: int| 0 <= i < n implies 0 <= #[trigger] grid_digits(g)[i] < pow(
        b,
        n as nat,
    ) by {
        assert(digits_below(row_digits(g[i]), n, b));
        lemma_code_bounded(row_digits(g[i]), n, b);
    }
}

pub proof fn lemma_grid_code_bounded(g: Grid)
    requires
        g.len() >= 1,
        is_square(g),
        tiles_in_range(g),
    ensures
        0 <= grid_code(g) < space_size(g.len()),
{
    lemma_grid_digits_below(g);
    lemma_code_bounded(grid_digits(g), g.len() as int, row_base(g.len()));
}

pub proof fn lemma_grid_code_injective(g: Grid, h: Grid)
    requires
        g.len() >= 1,
        g.len() == h.len(),
        is_square(g),
        is_square(h),
        tiles_in_range(g),
        tiles_in_range(h),
        grid_code(g) == grid_code(h),
    ensures
        g == h,
{
    let n = g.len() as int;
    let b = cell_base(g.len());
    lemma_grid_digits_below(g);
    lemma_grid_digits_below(h);
    lemma_code_injective(grid_digits(g), grid_digits(h), n, pow(b, n as nat));
    assert forall|i: int| 0 <= i < n implies g[i] == h[i] by {
        assert(grid_digits(g)[i] == grid_digits(h)[i]);
        assert(digits_below(row_digits(g[i]), n, b));
        assert(digits_below(row_digits(h[i]), n, b));
        lemma_code_injective(row_digits(g[i]), row_digits(h[i]), n, b);
        assert(g[i].len() == n);
        assert(h[i].len() == n);
        assert forall|j: int| 0 <= j < n implies g[i][j] == h[i][j] by {
            assert(row_digits(g[i])[j] == row_digits(h[i])[j]);
        }
        assert(g[i] =~= h[i]);
    }
    assert(g =~= h);
}

/// Distinct numbers below a bound are at most as many as the bound.
pub proof fn lemma_distinct_below(codes: Seq<int>, bound: int)
    requires
        0 <= bound,
        codes.no_duplicates(),
        forall|i: int| 0 <= i < codes.len() ==> 0 <= #[trigger] codes[i] < bound,
    ensures
        codes.len() <= bound,
{
    codes.unique_seq_to_set();
    lemma_int_range(0, bound);
    assert(codes.to_set().subset_of(set_int_range(0, bound))) by {
        assert forall|x: int| codes.to_set().contains(x) implies set_int_range(0, bound).contains(
            x,
        ) by {
            let i = choose|i: int| 0 <= i < codes.len() && codes[i] == x;
            assert(0 <= codes[i] < bound);
        }
    }
    lemma_len_subset(codes.to_set(), set_int_range(0, bound));
}

/// Grids of one side, well formed and pairwise different, are fewer than
/// the size of their space allows.
pub proof fn lemma_distinct_grids_bounded(grids: Seq<Grid>, n: nat)
    requires
        n >= 1,
        forall|k: int|
            0 <= k < grids.len() ==> (#[trigger] grids[k]).len() == n && is_square(grids[k])
                && tiles_in_range(grids[k]),
        forall|k: int, l: int| 0 <= k < l < grids.len() ==> grids[k] != grids[l],
    ensures
        grids.len() <= space_size(n),
{
    let codes = Seq::new(grids.len(), |k: int| grid_code(grids[k]));
    assert forall|k: int| 0 <= k < codes.len() implies 0 <= #[trigger] codes[k] < space_size(n) by {
        lemma_grid_code_bounded(grids[k]);
    }
    assert(codes.no_duplicates()) by {
        assert forall|k: int, l: int| 0 <= k < codes.len() && 0 <= l < codes.len() && k != l implies codes[k]
            != codes[l] by {
            if codes[k] == codes[l] {
                lemma_grid_code_injective(grids[k], grids[l]);
                if k < l {
                    assert(grids[k] != grids[l]);
                } else {
                    assert(grids[l] != grids[k]);
                }
            }
        }
    }
    if grids.len() > 0 {
        lemma_grid_code_bounded(grids[0]);
    } else {
        assert(cell_base(n) >= 1) by (nonlinear_arith)
            requires
                n >= 1,
                cell_base(n) == n * n,
        ;
        lemma_pow_positive(cell_base(n), n);
        lemma_pow_positive(row_base(n), n);
    }
    lemma_distinct_below(codes, space_size(n));
}

} // verus!
