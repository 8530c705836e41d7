//! Grids of characters: the character on a cell, and sums over all cells.

use vstd::prelude::*;

verus! {

/// The character on row `r`, column `c` of the rows, if there is one.
pub open spec fn letter(rows: Seq<Seq<char>>, r: int, c: int) -> Option<char> {
    if 0 <= r < rows.len() && 0 <= c < rows[r].len() {
        Some(rows[r][c])
    } else {
        None
    }
}

/// One for a hit, nothing for a miss.
pub open spec fn hit(found: bool) -> nat {
    if found {
        1
    } else {
        0
    }
}

/// `cell`, as `(row, column)`, comes before row `row`, column `col` in
/// reading order.
pub open spec fn read_before(cell: (int, int), row: int, col: int) -> bool {
    cell.0 < row || (cell.0 == row && cell.1 < col)
}

/// `a` comes before `b` in reading order, or is `b`.
pub open spec fn reads_first(a: (int, int), b: (int, int)) -> bool {
    a.0 < b.0 || (a.0 == b.0 && a.1 <= b.1)
}

/// The sum of `weight` over the first `n` cells of row `r`.
pub open spec fn sum_cells(weight: spec_fn(int, int) -> nat, r: int, n: int) -> nat
    decreases n,
{
    if n <= 0 {
        0
    } else {
        sum_cells(weight, r, n - 1) + weight(r, n - 1)
    }
}

/// The sum of `weight` over all cells of the first `n` rows.
pub open spec fn sum_rows<T>(rows: Seq<Seq<T>>, weight: spec_fn(int, int) -> nat, n: int) -> nat
    decreases n,
{
    if n <= 0 {
        0
    } else {
        sum_rows(rows, weight, n - 1) + sum_cells(weight, n - 1, rows[n - 1].len() as int)
    }
}

/// The sum of `weight` over all cells of the rows.
pub open spec fn sum_grid<T>(rows: Seq<Seq<T>>, weight: spec_fn(int, int) -> nat) -> nat {
    sum_rows(rows, weight, rows.len() as int)
}

/// A sum over the first cells of a row is no more than over more of them.
pub proof fn lemma_sum_cells_grows(weight: spec_fn(int, int) -> nat, r: int, m: int, n: int)
    requires
        m <= n,
    ensures
        sum_cells(weight, r, m) <= sum_cells(weight, r, n),
    decreases n - m,
{
    if m < n {
        lemma_sum_cells_grows(weight, r, m, n - 1);
    }
}

/// A sum over the first rows is no more than over more of them.
pub proof fn lemma_sum_rows_grows<T>(
    rows: Seq<Seq<T>>,
    weight: spec_fn(int, int) -> nat,
    m: int,
    n: int,
)
    requires
        m <= n,
    ensures
        sum_rows(rows, weight, m) <= sum_rows(rows, weight, n),
    decreases n - m,
{
    if m < n {
        lemma_sum_rows_grows(rows, weight, m, n - 1);
    }
}

/// The sum over some full rows and the first cells of the next row is no
/// more than the sum over the whole grid.
pub proof fn lemma_partial_sum_bounded<T>(
    rows: Seq<Seq<T>>,
    weight: spec_fn(int, int) -> nat,
    r: int,
    c: int,
)
    requires
        0 <= r < rows.len(),
        c <= rows[r].len(),
    ensures
        sum_rows(rows, weight, r) + sum_cells(weight, r, c) <= sum_grid(rows, weight),
{
    lemma_sum_cells_grows(weight, r, c, rows[r].len() as int);
    lemma_sum_rows_grows(rows, weight, r + 1, rows.len() as int);
}

/// Sums of weights that agree on the first `n` cells of a row are equal.
pub proof fn lemma_sum_cells_same(
    weight: spec_fn(int, int) -> nat,
    other: spec_fn(int, int) -> nat,
    r: int,
    n: int,
)
    requires
        forall|c: int| 0 <= c < n ==> #[trigger] weight(r, c) == other(r, c),
    ensures
        sum_cells(weight, r, n) == sum_cells(other, r, n),
    decreases n,
{
    if n > 0 {
        lemma_sum_cells_same(weight, other, r, n - 1);
    }
}

/// Sums of weights that agree on the cells of the first `n` rows are equal.
pub proof fn lemma_sum_rows_same<T>(
    rows: Seq<Seq<T>>,
    weight: spec_fn(int, int) -> nat,
    other: spec_fn(int, int) -> nat,
    n: int,
)
    requires
        forall|r: int, c: int|
            0 <= r < n && 0 <= c < rows[r].len() ==> #[trigger] weight(r, c) == other(r, c),
    ensures
        sum_rows(rows, weight, n) == sum_rows(rows, other, n),
    decreases n,
{
    if n > 0 {
        lemma_sum_rows_same(rows, weight, other, n - 1);
        lemma_sum_cells_same(weight, other, n - 1, rows[n - 1].len() as int);
    }
}

/// A weight raised by `more` on one of the first `n` cells of a row raises
/// the sum over them by `more`.
pub proof fn lemma_sum_cells_raised(
    weight: spec_fn(int, int) -> nat,
    other: spec_fn(int, int) -> nat,
    r: int,
    n: int,
    at: int,
    more: nat,
)
    requires
        0 <= at < n,
        other(r, at) == weight(r, at) + more,
        forall|c: int| 0 <= c < n && c != at ==> #[trigger] weight(r, c) == other(r, c),
    ensures
        sum_cells(other, r, n) == sum_cells(weight, r, n) + more,
    decreases n,
{
    if at == n - 1 {
        lemma_sum_cells_same(weight, other, r, n - 1);
    } else {
        lemma_sum_cells_raised(weight, other, r, n - 1, at, more);
    }
}

/// A weight raised by `more` on one cell of the first `n` rows raises the
/// sum over them by `more`.
pub proof fn lemma_sum_rows_raised<T>(
    rows: Seq<Seq<T>>,
    weight: spec_fn(int, int) -> nat,
    other: spec_fn(int, int) -> nat,
    n: int,
    at: (int, int),
    more: nat,
)
    requires
        0 <= at.0 < n,
        0 <= at.1 < rows[at.0].len(),
        other(at.0, at.1) == weight(at.0, at.1) + more,
        forall|r: int, c: int|
            0 <= r < n && 0 <= c < rows[r].len() && (r, c) != at ==> #[trigger] weight(r, c)
                == other(r, c),
    ensures
        sum_rows(rows, other, n) == sum_rows(rows, weight, n) + more,
    decreases n,
{
    if at.0 == n - 1 {
        lemma_sum_rows_same(rows, weight, other, n - 1);
        lemma_sum_cells_raised(weight, other, n - 1, rows[n - 1].len() as int, at.1, more);
    } else {
        lemma_sum_rows_raised(rows, weight, other, n - 1, at, more);
        lemma_sum_cells_same(weight, other, n - 1, rows[n - 1].len() as int);
    }
}

/// A weight that is nowhere smaller gives no smaller a sum over a row.
pub proof fn lemma_sum_cells_ordered(
    weight: spec_fn(int, int) -> nat,
    other: spec_fn(int, int) -> nat,
    r: int,
    n: int,
)
    requires
        forall|c: int| 0 <= c < n ==> #[trigger] weight(r, c) <= other(r, c),
    ensures
        sum_cells(weight, r, n) <= sum_cells(other, r, n),
    decreases n,
{
    if n > 0 {
        lemma_sum_cells_ordered(weight, other, r, n - 1);
    }
}

/// A weight that is nowhere smaller gives no smaller a sum over the rows.
pub proof fn lemma_sum_rows_ordered<T>(
    rows: Seq<Seq<T>>,
    weight: spec_fn(int, int) -> nat,
    other: spec_fn(int, int) -> nat,
    n: int,
)
    requires
        forall|r: int, c: int|
            0 <= r < n && 0 <= c < rows[r].len() ==> #[trigger] weight(r, c) <= other(r, c),
    ensures
        sum_rows(rows, weight, n) <= sum_rows(rows, other, n),
    decreases n,
{
    if n > 0 {
        lemma_sum_rows_ordered(rows, weight, other, n - 1);
        lemma_sum_cells_ordered(weight, other, n - 1, rows[n - 1].len() as int);
    }
}

} // verus!
