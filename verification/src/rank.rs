//! The rank of a matrix by Gauss-Jordan elimination in binary64, with a
//! fixed tolerance and no pivoting for stability.

use crate::binary64::{
    difference, difference_of, exceeds, exceeds_tolerance, from_integer, from_u16,
    lemma_integer_exceeds_tolerance, product, product_of, quotient, quotient_of, EPSILON,
    INFINITY,
};
use crate::matrix::Matrix;
use vstd::prelude::*;

verus! {

/// Where an elimination stands: the working grid of binary64 values, the
/// rows that have served as a pivot, and the number of pivots found.
pub struct Elimination {
    pub grid: Seq<Seq<u64>>,
    pub selected: Seq<bool>,
    pub rank: nat,
}

/// The first row at or after `from` that has not been a pivot and whose
/// entry in column `i` is beyond the tolerance; 64 if there is none.
pub open spec fn first_pivot(grid: Seq<Seq<u64>>, selected: Seq<bool>, i: int, from: int) -> int
    decreases 64 - from,
{
    if from >= 64 {
        64
    } else if !selected[from] && exceeds_tolerance(grid[from][i]) {
        from
    } else {
        first_pivot(grid, selected, i, from + 1)
    }
}

/// The pivot row after its entries right of column `i` have been divided
/// by its entry in column `i`.
pub open spec fn scaled_row(row: Seq<u64>, i: int) -> Seq<u64> {
    Seq::new(
        64,
        |p: int|
            if p > i {
                quotient_of(row[p], row[i])
            } else {
                row[p]
            },
    )
}

/// A row other than the pivot: where its entry in column `i` is beyond the
/// tolerance, that entry times the scaled pivot row is subtracted from it,
/// right of column `i`.
pub open spec fn reduced_row(row: Seq<u64>, pivot: Seq<u64>, i: int) -> Seq<u64> {
    if exceeds_tolerance(row[i]) {
        Seq::new(
            64,
            |p: int|
                if p > i {
                    difference_of(row[p], product_of(pivot[p], row[i]))
                } else {
                    row[p]
                },
        )
    } else {
        row
    }
}

/// The grid after column `i` has been eliminated with pivot row `j`.
pub open spec fn eliminated(grid: Seq<Seq<u64>>, j: int, i: int) -> Seq<Seq<u64>> {
    let pivot = scaled_row(grid[j], i);
    Seq::new(
        64,
        |k: int|
            if k == j {
                pivot
            } else {
                reduced_row(grid[k], pivot, i)
            },
    )
}

/// One column: if a pivot is found, its row is selected, the column is
/// eliminated and the rank grows by one; otherwise nothing changes.
pub open spec fn after_column(state: Elimination, i: int) -> Elimination {
    let j = first_pivot(state.grid, state.selected, i, 0);
    if j >= 64 {
        state
    } else {
        Elimination {
            grid: eliminated(state.grid, j, i),
            selected: state.selected.update(j, true),
            rank: state.rank + 1,
        }
    }
}

/// The state after columns `0 .. n` have been processed in order.
pub open spec fn after_columns(start: Elimination, n: nat) -> Elimination
    decreases n,
{
    if n == 0 {
        start
    } else {
        after_column(after_columns(start, (n - 1) as nat), n - 1)
    }
}

/// The state before any column: every entry converted exactly, no row
/// selected, rank zero.
pub open spec fn initial(rows: Seq<Seq<u16>>) -> Elimination {
    Elimination {
        grid: Seq::new(64, |i: int| Seq::new(64, |j: int| from_integer(rows[i][j] as nat))),
        selected: Seq::new(64, |i: int| false),
        rank: 0,
    }
}

/// The number of pivots found over all 64 columns.
pub open spec fn rank_of(rows: Seq<Seq<u16>>) -> nat {
    after_columns(initial(rows), 64).rank
}

/// The rows of a working grid as sequences.
pub open spec fn grid_of(m: [[u64; 64]; 64]) -> Seq<Seq<u64>> {
    Seq::new(64, |k: int| m[k]@)
}

/// Each column adds at most one pivot.
proof fn lemma_rank_grows_slowly(start: Elimination, n: nat)
    ensures
        after_columns(start, n).rank <= start.rank + n,
    decreases n,
{
    if n > 0 {
        lemma_rank_grows_slowly(start, (n - 1) as nat);
    }
}

/// The rank lies between 0 and 64.
pub proof fn lemma_rank_at_most_64(rows: Seq<Seq<u16>>)
    ensures
        rank_of(rows) <= 64,
{
    lemma_rank_grows_slowly(initial(rows), 64);
}

/// No row of a grid of zeros can be a pivot.
proof fn lemma_no_pivot_among_zeros(grid: Seq<Seq<u64>>, selected: Seq<bool>, i: int, from: int)
    requires
        0 <= from,
        forall|k: int| 0 <= k < 64 ==> (#[trigger] grid[k])[i] == 0,
    ensures
        first_pivot(grid, selected, i, from) == 64,
    decreases 64 - from,
{
    if from < 64 {
        assert(grid[from][i] == 0);
        lemma_no_pivot_among_zeros(grid, selected, i, from + 1);
    }
}

/// A grid of zeros stays as it is, column after column.
proof fn lemma_zeros_stay(start: Elimination, n: nat)
    requires
        n <= 64,
        forall|k: int, c: int| 0 <= k < 64 && 0 <= c < 64 ==> #[trigger] start.grid[k][c] == 0,
    ensures
        after_columns(start, n) == start,
    decreases n,
{
    if n > 0 {
        lemma_zeros_stay(start, (n - 1) as nat);
        lemma_no_pivot_among_zeros(start.grid, start.selected, n - 1, 0);
    }
}

/// The rank of the zero matrix is 0.
pub proof fn lemma_rank_of_zeros(rows: Seq<Seq<u16>>)
    requires
        forall|i: int, j: int| 0 <= i < 64 && 0 <= j < 64 ==> #[trigger] rows[i][j] == 0,
    ensures
        rank_of(rows) == 0,
{
    let start = initial(rows);
    assert forall|k: int, c: int| 0 <= k < 64 && 0 <= c < 64 implies #[trigger] start.grid[k][c]
        == 0 by {
        assert(rows[k][c] == 0);
    }
    lemma_zeros_stay(start, 64);
}

/// Whether a grid is zero off the diagonal and positive, finite and beyond
/// the tolerance on it.
pub open spec fn is_diagonal(grid: Seq<Seq<u64>>) -> bool {
    forall|k: int, c: int|
        0 <= k < 64 && 0 <= c < 64 ==> if k == c {
            EPSILON < #[trigger] grid[k][c] < INFINITY
        } else {
            grid[k][c] == 0
        }
}

/// In a diagonal grid whose first `n` rows are selected, row `n` is the
/// pivot of column `n`.
proof fn lemma_pivot_on_diagonal(grid: Seq<Seq<u64>>, selected: Seq<bool>, n: int, from: int)
    requires
        0 <= from <= n < 64,
        is_diagonal(grid),
        !selected[n],
    ensures
        first_pivot(grid, selected, n, from) == n,
    decreases n - from,
{
    if from < n {
        assert(grid[from][n] == 0);
        lemma_pivot_on_diagonal(grid, selected, n, from + 1);
    } else {
        assert(EPSILON < grid[n][n] < INFINITY);
    }
}

/// Eliminating a column of a diagonal grid on its diagonal entry changes
/// nothing: the pivot row holds zeros right of the column, and no other
/// row has an entry in it.
proof fn lemma_diagonal_stays(grid: Seq<Seq<u64>>, n: int)
    requires
        0 <= n < 64,
        grid.len() == 64,
        forall|k: int| 0 <= k < 64 ==> (#[trigger] grid[k]).len() == 64,
        is_diagonal(grid),
    ensures
        eliminated(grid, n, n) == grid,
{
    let pivot = scaled_row(grid[n], n);
    assert(pivot =~= grid[n]) by {
        assert forall|p: int| 0 <= p < 64 implies pivot[p] == grid[n][p] by {
            if p > n {
                assert(grid[n][p] == 0);
                assert(EPSILON < grid[n][n] < INFINITY);
            }
        }
    }
    assert forall|k: int| 0 <= k < 64 implies #[trigger] eliminated(grid, n, n)[k] == grid[k] by {
        if k != n {
            assert(grid[k][n] == 0);
        }
    }
    assert(eliminated(grid, n, n) =~= grid);
}

/// A diagonal grid yields one pivot per column.
proof fn lemma_diagonal_columns(start: Elimination, n: nat)
    requires
        n <= 64,
        start.grid.len() == 64,
        forall|k: int| 0 <= k < 64 ==> (#[trigger] start.grid[k]).len() == 64,
        is_diagonal(start.grid),
        start.selected == Seq::new(64, |k: int| false),
    ensures
        after_columns(start, n).grid == start.grid,
        after_columns(start, n).selected == Seq::new(64, |k: int| k < n),
        after_columns(start, n).rank == start.rank + n,
    decreases n,
{
    if n == 0 {
        assert(start.selected =~= Seq::new(64, |k: int| k < 0));
    } else {
        lemma_diagonal_columns(start, (n - 1) as nat);
        let before = after_columns(start, (n - 1) as nat);
        lemma_pivot_on_diagonal(before.grid, before.selected, n - 1, 0);
        lemma_diagonal_stays(before.grid, n - 1);
        assert(before.selected.update(n - 1, true) =~= Seq::new(64, |k: int| k < n));
    }
}

/// A matrix with nonzero entries on its diagonal and zeros elsewhere has
/// rank 64.
pub proof fn lemma_rank_of_diagonal(rows: Seq<Seq<u16>>)
    requires
        forall|i: int, j: int|
            0 <= i < 64 && 0 <= j < 64 ==> (i == j) == (#[trigger] rows[i][j] != 0),
    ensures
        rank_of(rows) == 64,
{
    let start = initial(rows);
    assert forall|k: int, c: int| 0 <= k < 64 && 0 <= c < 64 implies if k == c {
        EPSILON < #[trigger] start.grid[k][c] < INFINITY
    } else {
        start.grid[k][c] == 0
    } by {
        if k == c {
            assert(rows[k][c] != 0);
            lemma_integer_exceeds_tolerance(rows[k][c]);
        } else {
            assert(rows[k][c] == 0);
        }
    }
    lemma_diagonal_columns(start, 64);
}

fn find_pivot(m: &[[u64; 64]; 64], selected: &[bool; 64], i: usize) -> (j: usize)
    requires
        i < 64,
    ensures
        j == first_pivot(grid_of(*m), selected@, i as int, 0),
        j <= 64,
{
    let mut j: usize = 0;
    while j < 64
        invariant
            j <= 64,
            i < 64,
            first_pivot(grid_of(*m), selected@, i as int, 0) == first_pivot(
                grid_of(*m),
                selected@,
                i as int,
                j as int,
            ),
        decreases 64 - j,
    {
        if !selected[j] && exceeds(m[j][i]) {
            return j;
        }
        j += 1;
    }
    j
}

fn scale_row(row: &mut [u64; 64], i: usize)
    requires
        i < 64,
    ensures
        final(row)@ == scaled_row(old(row)@, i as int),
{
    let ghost before = row@;
    let pivot: u64 = row[i];
    let mut p: usize = i + 1;
    while p < 64
        invariant
            i < p <= 64,
            pivot == before[i as int],
            forall|c: int| 0 <= c < p ==> row@[c] == scaled_row(before, i as int)[c],
            forall|c: int| p <= c < 64 ==> row@[c] == before[c],
        decreases 64 - p,
    {
        row[p] = quotient(row[p], pivot);
        p += 1;
    }
    assert(row@ =~= scaled_row(before, i as int));
}

fn reduce_row(row: &mut [u64; 64], pivot: &[u64; 64], i: usize)
    requires
        i < 64,
    ensures
        final(row)@ == reduced_row(old(row)@, pivot@, i as int),
{
    let ghost before = row@;
    let factor: u64 = row[i];
    if exceeds(factor) {
        let mut p: usize = i + 1;
        while p < 64
            invariant
                i < p <= 64,
                factor == before[i as int],
                exceeds_tolerance(factor),
                forall|c: int| 0 <= c < p ==> row@[c] == reduced_row(before, pivot@, i as int)[c],
                forall|c: int| p <= c < 64 ==> row@[c] == before[c],
            decreases 64 - p,
        {
            row[p] = difference(row[p], product(pivot[p], factor));
            p += 1;
        }
        assert(row@ =~= reduced_row(before, pivot@, i as int));
    }
}

fn convert(mat: &Matrix) -> (m: [[u64; 64]; 64])
    ensures
        grid_of(m) == initial(mat@).grid,
{
    let mut m: [[u64; 64]; 64] = [[0u64; 64]; 64];
    let mut i: usize = 0;
    while i < 64
        invariant
            i <= 64,
            forall|a: int, b: int|
                0 <= a < i && 0 <= b < 64 ==> #[trigger] m[a][b] == from_integer(
                    mat.0[a][b] as nat,
                ),
        decreases 64 - i,
    {
        let mut j: usize = 0;
        while j < 64
            invariant
                i < 64,
                j <= 64,
                forall|a: int, b: int|
                    0 <= a < i && 0 <= b < 64 ==> #[trigger] m[a][b] == from_integer(
                        mat.0[a][b] as nat,
                    ),
                forall|b: int|
                    0 <= b < j ==> #[trigger] m[i as int][b] == from_integer(
                        mat.0[i as int][b] as nat,
                    ),
            decreases 64 - j,
        {
            m[i][j] = from_u16(mat.0[i][j]);
            j += 1;
        }
        i += 1;
    }
    assert(grid_of(m) =~~= initial(mat@).grid);
    m
}

impl Matrix {
    /// The rank of the matrix: how many of the 64 columns yield a pivot.
    pub fn compute_rank(&self) -> (rank: usize)
        ensures
            rank == rank_of(self@),
            rank <= 64,
    {
        let ghost start = initial(self@);
        let mut m: [[u64; 64]; 64] = convert(self);
        let mut rank: usize = 0;
        let mut row_selected: [bool; 64] = [false; 64];
        assert(row_selected@ =~= start.selected);
        let mut i: usize = 0;
        while i < 64
            invariant
                i <= 64,
                rank <= i,
                after_columns(start, i as nat) == (Elimination {
                    grid: grid_of(m),
                    selected: row_selected@,
                    rank: rank as nat,
                }),
            decreases 64 - i,
        {
            let ghost state = after_columns(start, i as nat);
            let j: usize = find_pivot(&m, &row_selected, i);
            if j != 64 {
                rank += 1;
                row_selected[j] = true;
                let mut pivot: [u64; 64] = m[j];
                scale_row(&mut pivot, i);
                m[j] = pivot;
                let mut k: usize = 0;
                while k < 64
                    invariant
                        k <= 64,
                        i < 64,
                        j < 64,
                        pivot@ == scaled_row(state.grid[j as int], i as int),
                        forall|r: int|
                            0 <= r < k ==> #[trigger] m[r]@ == eliminated(
                                state.grid,
                                j as int,
                                i as int,
                            )[r],
                        forall|r: int| k <= r < 64 && r != j ==> #[trigger] m[r]@ == state.grid[r],
                        m[j as int]@ == pivot@,
                    decreases 64 - k,
                {
                    if k != j {
                        let mut row: [u64; 64] = m[k];
                        reduce_row(&mut row, &pivot, i);
                        m[k] = row;
                    }
                    k += 1;
                }
                assert(grid_of(m) =~= eliminated(state.grid, j as int, i as int));
            }
            i += 1;
        }
        rank
    }
}

} // verus!
