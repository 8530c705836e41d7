//! Antennas on a grid: every two antennas of one frequency throw antinodes
//! on the line through them, at whole multiples of their distance beyond
//! each of the two.

use std::collections::HashMap;
use vstd::prelude::*;
use crate::cells::{as_cell, lemma_box_bounded, PositionSet};
use crate::text::{chars_of, lines_of, rows_of, split_lines, InputError};

verus! {

/// Whether `c` is a letter or a number: what the standard library's
/// `char::is_alphanumeric` says of it.
pub uninterp spec fn alphanumeric(c: char) -> bool;

/// Asks `char::is_alphanumeric` whether `c` is a letter or a number. The
/// contract only gives the answer its name.
#[verifier::external_body]
fn is_alphanumeric(c: char) -> (answer: bool)
    ensures
        answer == alphanumeric(c),
{
    c.is_alphanumeric()
}

/// Row `cell.1` of the rows holds, in column `cell.0`, an antenna of the
/// frequency with the code `code`.
pub open spec fn antenna_at(rows: Seq<Seq<char>>, cell: (int, int), code: u32) -> bool {
    &&& 0 <= cell.1 < rows.len()
    &&& 0 <= cell.0 < rows[cell.1].len()
    &&& rows[cell.1][cell.0] as u32 == code
    &&& alphanumeric(rows[cell.1][cell.0])
}

/// The grid is a rectangle whose cells positions can name.
pub open spec fn even(rows: Seq<Seq<char>>) -> bool {
    &&& rows.len() <= i64::MAX
    &&& forall|r: int| 0 <= r < rows.len() ==> (#[trigger] rows[r]).len() == rows[0].len()
    &&& rows.len() > 0 ==> rows[0].len() <= i64::MAX
}

/// The cell lies on the grid: in a row of it, and in a column of its first row.
pub open spec fn in_grid(rows: Seq<Seq<char>>, cell: (int, int)) -> bool {
    0 <= cell.1 < rows.len() && 0 <= cell.0 < rows[0].len()
}

/// The cell `k` times the way from `a` to `b` beyond `b`.
pub open spec fn beyond(a: (int, int), b: (int, int), k: int) -> (int, int) {
    (b.0 + k * (b.0 - a.0), b.1 + k * (b.1 - a.1))
}

/// Two different antennas of one frequency stand on `a` and `b`.
pub open spec fn paired(rows: Seq<Seq<char>>, a: (int, int), b: (int, int)) -> bool {
    a != b && exists|code: u32| antenna_at(rows, a, code) && antenna_at(rows, b, code)
}

/// Whether the count `k` of jumps is one that is asked for: from `from` on,
/// and no more than `upto` where that is given.
pub open spec fn wanted(k: int, from: u64, upto: Option<u64>) -> bool {
    from <= k && (upto matches Some(most) ==> k <= most)
}

/// The pair `a`, `b` throws an antinode on `cell` with `k` jumps.
pub open spec fn thrown(
    rows: Seq<Seq<char>>,
    cell: (int, int),
    a: (int, int),
    b: (int, int),
    k: int,
) -> bool {
    paired(rows, a, b) && cell == beyond(a, b, k)
}

/// `cell` is an antinode: it lies on the grid, and some pair of antennas
/// of one frequency throws it with a wanted count of jumps.
pub open spec fn is_antinode(rows: Seq<Seq<char>>, cell: (int, int), from: u64, upto: Option<u64>) -> bool {
    in_grid(rows, cell) && exists|a: (int, int), b: (int, int), k: int|
        wanted(k, from, upto) && #[trigger] thrown(rows, cell, a, b, k)
}

/// All antinodes of the grid.
pub open spec fn antinodes(rows: Seq<Seq<char>>, from: u64, upto: Option<u64>) -> Set<(int, int)> {
    Set::new(|cell: (int, int)| is_antinode(rows, cell, from, upto))
}

/// The pair `a`, `b` throws an antinode on `cell` with `k` jumps, beyond
/// the one or beyond the other.
pub open spec fn thrown_either(cell: (int, int), a: (int, int), b: (int, int), k: int) -> bool {
    cell == beyond(a, b, k) || cell == beyond(b, a, k)
}

/// The cells of the grid on which the first `done` pairs throw an antinode
/// with a wanted count of jumps, or the pair `a`, `b` with a wanted count
/// below `curr`.
pub open spec fn thrown_so_far(
    rows: Seq<Seq<char>>,
    pairs: Seq<((i64, i64), (i64, i64))>,
    done: int,
    from: u64,
    upto: Option<u64>,
    a: (int, int),
    b: (int, int),
    curr: int,
) -> Set<(int, int)> {
    Set::new(
        |cell: (int, int)|
            in_grid(rows, cell) && ((exists|t: int, k: int|
                0 <= t < done && wanted(k, from, upto) && #[trigger] thrown_either(
                    cell,
                    as_cell(pairs[t].0),
                    as_cell(pairs[t].1),
                    k,
                )) || (exists|k: int|
                k < curr && wanted(k, from, upto) && #[trigger] thrown_either(cell, a, b, k))),
    )
}

/// How many more jumps may still reach the grid after `curr` of them.
pub open spec fn room_left(rows: Seq<Seq<char>>, curr: int) -> int {
    let room = rows.len() + if rows.len() > 0 {
        rows[0].len()
    } else {
        0
    };
    if curr <= room {
        room + 1 - curr
    } else {
        0
    }
}

/// Paired antennas of a rectangle stand on the grid.
pub proof fn lemma_paired_on_grid(rows: Seq<Seq<char>>, a: (int, int), b: (int, int))
    requires
        even(rows),
        paired(rows, a, b),
    ensures
        in_grid(rows, a),
        in_grid(rows, b),
        paired(rows, b, a),
{
    assert(rows[a.1].len() == rows[0].len());
    assert(rows[b.1].len() == rows[0].len());
}

/// An antinode that is still on the grid was thrown with fewer jumps than
/// the grid has rows and columns.
pub proof fn lemma_jumps_bounded(rows: Seq<Seq<char>>, a: (int, int), b: (int, int), k: int)
    requires
        in_grid(rows, a),
        in_grid(rows, b),
        a != b,
        0 <= k,
    ensures
        in_grid(rows, beyond(a, b, k)) ==> k < rows.len() + rows[0].len(),
{
    let w = rows[0].len() as int;
    let h = rows.len() as int;
    let dx = b.0 - a.0;
    let dy = b.1 - a.1;
    if in_grid(rows, beyond(a, b, k)) {
        if dx != 0 {
            assert(k < w) by (nonlinear_arith)
                requires
                    0 <= b.0 < w,
                    0 <= b.0 + k * dx < w,
                    dx != 0,
                    0 <= k,
            ;
        } else {
            assert(k < h) by (nonlinear_arith)
                requires
                    0 <= b.1 < h,
                    0 <= b.1 + k * dy < h,
                    dy != 0,
                    0 <= k,
            ;
        }
    }
}

/// Once the antinodes beyond an antenna have left the grid, those thrown
/// with more jumps lie outside it too.
pub proof fn lemma_out_stays_out(
    rows: Seq<Seq<char>>,
    a: (int, int),
    b: (int, int),
    k: int,
    m: int,
)
    requires
        in_grid(rows, b),
        0 <= k <= m,
        !in_grid(rows, beyond(a, b, k)),
    ensures
        !in_grid(rows, beyond(a, b, m)),
{
    let w = rows[0].len() as int;
    let h = rows.len() as int;
    let dx = b.0 - a.0;
    let dy = b.1 - a.1;
    assert(!(0 <= b.0 + m * dx < w && 0 <= b.1 + m * dy < h)) by (nonlinear_arith)
        requires
            0 <= b.0 < w,
            0 <= b.1 < h,
            0 <= k <= m,
            !(0 <= b.0 + k * dx < w && 0 <= b.1 + k * dy < h),
    ;
}

/// The antinodes lie on the grid, so they are finitely many.
pub proof fn lemma_antinodes_finite(rows: Seq<Seq<char>>, from: u64, upto: Option<u64>)
    ensures
        antinodes(rows, from, upto).finite(),
{
    let width = if rows.len() > 0 {
        rows[0].len() as int
    } else {
        0
    };
    lemma_box_bounded(width, rows.len() as int, antinodes(rows, from, upto));
}

/// What has been thrown so far is among the antinodes.
pub proof fn lemma_subset_of_all(
    rows: Seq<Seq<char>>,
    pairs: Seq<((i64, i64), (i64, i64))>,
    done: int,
    from: u64,
    upto: Option<u64>,
    curr: int,
)
    requires
        even(rows),
        0 <= done < pairs.len(),
        forall|a: (i64, i64), b: (i64, i64)| #[trigger]
            pairs.contains((a, b)) <==> paired(rows, as_cell(a), as_cell(b)),
    ensures
        thrown_so_far(
            rows,
            pairs,
            done,
            from,
            upto,
            as_cell(pairs[done].0),
            as_cell(pairs[done].1),
            curr,
        ).subset_of(antinodes(rows, from, upto)),
{
    let a = as_cell(pairs[done].0);
    let b = as_cell(pairs[done].1);
    let so_far = thrown_so_far(rows, pairs, done, from, upto, a, b, curr);
    assert forall|cell: (int, int)| so_far.contains(cell) implies antinodes(
        rows,
        from,
        upto,
    ).contains(cell) by {
        if exists|t: int, k: int|
            0 <= t < done && wanted(k, from, upto) && #[trigger] thrown_either(
                cell,
                as_cell(pairs[t].0),
                as_cell(pairs[t].1),
                k,
            ) {
            let (t, k) = choose|t: int, k: int|
                0 <= t < done && wanted(k, from, upto) && #[trigger] thrown_either(
                    cell,
                    as_cell(pairs[t].0),
                    as_cell(pairs[t].1),
                    k,
                );
            assert(pairs.contains((pairs[t].0, pairs[t].1)));
            lemma_either_is_thrown(rows, cell, as_cell(pairs[t].0), as_cell(pairs[t].1), k);
        } else {
            let k = choose|k: int|
                k < curr && wanted(k, from, upto) && #[trigger] thrown_either(cell, a, b, k);
            assert(pairs.contains((pairs[done].0, pairs[done].1)));
            lemma_either_is_thrown(rows, cell, a, b, k);
        }
    }
}

/// What a pair throws beyond the one or the other of its antennas, the pair
/// or the pair turned round throws.
pub proof fn lemma_either_is_thrown(
    rows: Seq<Seq<char>>,
    cell: (int, int),
    a: (int, int),
    b: (int, int),
    k: int,
)
    requires
        even(rows),
        paired(rows, a, b),
        thrown_either(cell, a, b, k),
    ensures
        thrown(rows, cell, a, b, k) || thrown(rows, cell, b, a, k),
{
    lemma_paired_on_grid(rows, a, b);
}

/// One more count of jumps adds what the pair throws with it.
pub proof fn lemma_step_thrown(
    rows: Seq<Seq<char>>,
    pairs: Seq<((i64, i64), (i64, i64))>,
    done: int,
    from: u64,
    upto: Option<u64>,
    a: (int, int),
    b: (int, int),
    curr: int,
)
    requires
        wanted(curr, from, upto),
    ensures
        forall|cell: (int, int)|
            thrown_so_far(rows, pairs, done, from, upto, a, b, curr + 1).contains(cell) <==> (
            thrown_so_far(rows, pairs, done, from, upto, a, b, curr).contains(cell) || (in_grid(
                rows,
                cell,
            ) && thrown_either(cell, a, b, curr))),
{
    let wider = thrown_so_far(rows, pairs, done, from, upto, a, b, curr + 1);
    let narrow = thrown_so_far(rows, pairs, done, from, upto, a, b, curr);
    assert forall|cell: (int, int)| wider.contains(cell) implies (narrow.contains(cell) || (
    in_grid(rows, cell) && thrown_either(cell, a, b, curr))) by {
        if !(exists|t: int, k: int|
            0 <= t < done && wanted(k, from, upto) && #[trigger] thrown_either(
                cell,
                as_cell(pairs[t].0),
                as_cell(pairs[t].1),
                k,
            )) {
            let k = choose|k: int|
                k < curr + 1 && wanted(k, from, upto) && #[trigger] thrown_either(cell, a, b, k);
            if k < curr {
                assert(thrown_either(cell, a, b, k));
            }
        }
    }
    assert forall|cell: (int, int)|
        (narrow.contains(cell) || (in_grid(rows, cell) && thrown_either(
            cell,
            a,
            b,
            curr,
        ))) implies wider.contains(cell) by {
        if in_grid(rows, cell) && thrown_either(cell, a, b, curr) {
        } else if !(exists|t: int, k: int|
            0 <= t < done && wanted(k, from, upto) && #[trigger] thrown_either(
                cell,
                as_cell(pairs[t].0),
                as_cell(pairs[t].1),
                k,
            )) {
            let k = choose|k: int|
                k < curr && wanted(k, from, upto) && #[trigger] thrown_either(cell, a, b, k);
            assert(k < curr + 1 && thrown_either(cell, a, b, k));
        }
    }
}

/// When the counts of jumps below `curr` are all the wanted ones that can
/// still reach the grid, the pair is done.
pub proof fn lemma_pair_complete(
    rows: Seq<Seq<char>>,
    pairs: Seq<((i64, i64), (i64, i64))>,
    done: int,
    from: u64,
    upto: Option<u64>,
    curr: int,
)
    requires
        0 <= done < pairs.len(),
        forall|cell: (int, int), k: int|
            in_grid(rows, cell) && wanted(k, from, upto) && #[trigger] thrown_either(
                cell,
                as_cell(pairs[done].0),
                as_cell(pairs[done].1),
                k,
            ) ==> k < curr,
    ensures
        thrown_so_far(
            rows,
            pairs,
            done,
            from,
            upto,
            as_cell(pairs[done].0),
            as_cell(pairs[done].1),
            curr,
        ) == thrown_so_far(rows, pairs, done + 1, from, upto, (0, 0), (0, 0), 0),
{
    let a = as_cell(pairs[done].0);
    let b = as_cell(pairs[done].1);
    let left = thrown_so_far(rows, pairs, done, from, upto, a, b, curr);
    let right = thrown_so_far(rows, pairs, done + 1, from, upto, (0, 0), (0, 0), 0);
    assert forall|cell: (int, int)| left.contains(cell) implies right.contains(cell) by {
        if exists|t: int, k: int|
            0 <= t < done && wanted(k, from, upto) && #[trigger] thrown_either(
                cell,
                as_cell(pairs[t].0),
                as_cell(pairs[t].1),
                k,
            ) {
            let (t, k) = choose|t: int, k: int|
                0 <= t < done && wanted(k, from, upto) && #[trigger] thrown_either(
                    cell,
                    as_cell(pairs[t].0),
                    as_cell(pairs[t].1),
                    k,
                );
            assert(0 <= t < done + 1 && thrown_either(
                cell,
                as_cell(pairs[t].0),
                as_cell(pairs[t].1),
                k,
            ));
        } else {
            let k = choose|k: int|
                k < curr && wanted(k, from, upto) && #[trigger] thrown_either(cell, a, b, k);
            assert(0 <= done < done + 1 && thrown_either(
                cell,
                as_cell(pairs[done].0),
                as_cell(pairs[done].1),
                k,
            ));
        }
    }
    assert forall|cell: (int, int)| right.contains(cell) implies left.contains(cell) by {
        assert(!(exists|k: int|
            k < 0 && wanted(k, from, upto) && #[trigger] thrown_either(cell, (0, 0), (0, 0), k)));
        let (t, k) = choose|t: int, k: int|
            0 <= t < done + 1 && wanted(k, from, upto) && #[trigger] thrown_either(
                cell,
                as_cell(pairs[t].0),
                as_cell(pairs[t].1),
                k,
            );
        if t < done {
            assert(thrown_either(cell, as_cell(pairs[t].0), as_cell(pairs[t].1), k));
        } else {
            assert(k < curr && thrown_either(cell, a, b, k));
        }
    }
    assert(left =~= right);
}

/// When all pairs are done, what has been thrown is every antinode.
pub proof fn lemma_all_thrown(
    rows: Seq<Seq<char>>,
    pairs: Seq<((i64, i64), (i64, i64))>,
    from: u64,
    upto: Option<u64>,
)
    requires
        even(rows),
        forall|a: (i64, i64), b: (i64, i64)| #[trigger]
            pairs.contains((a, b)) <==> paired(rows, as_cell(a), as_cell(b)),
    ensures
        thrown_so_far(rows, pairs, pairs.len() as int, from, upto, (0, 0), (0, 0), 0)
            == antinodes(rows, from, upto),
{
    let left = thrown_so_far(rows, pairs, pairs.len() as int, from, upto, (0, 0), (0, 0), 0);
    let right = antinodes(rows, from, upto);
    assert forall|cell: (int, int)| left.contains(cell) implies right.contains(cell) by {
        assert(!(exists|k: int|
            k < 0 && wanted(k, from, upto) && #[trigger] thrown_either(cell, (0, 0), (0, 0), k)));
        let (t, k) = choose|t: int, k: int|
            0 <= t < pairs.len() && wanted(k, from, upto) && #[trigger] thrown_either(
                cell,
                as_cell(pairs[t].0),
                as_cell(pairs[t].1),
                k,
            );
        assert(pairs.contains((pairs[t].0, pairs[t].1)));
        lemma_either_is_thrown(rows, cell, as_cell(pairs[t].0), as_cell(pairs[t].1), k);
    }
    assert forall|cell: (int, int)| right.contains(cell) implies left.contains(cell) by {
        let (a, b, k) = choose|a: (int, int), b: (int, int), k: int|
            wanted(k, from, upto) && #[trigger] thrown(rows, cell, a, b, k);
        lemma_paired_on_grid(rows, a, b);
        let a64 = (a.0 as i64, a.1 as i64);
        let b64 = (b.0 as i64, b.1 as i64);
        assert(as_cell(a64) == a && as_cell(b64) == b);
        assert(pairs.contains((a64, b64)));
        let t = choose|t: int| 0 <= t < pairs.len() && pairs[t] == (a64, b64);
        assert(thrown_either(cell, as_cell(pairs[t].0), as_cell(pairs[t].1), k));
    }
    assert(left =~= right);
}

/// The list kept for `code` holds `position`.
pub open spec fn listed(
    lists: Map<u32, Vec<(i64, i64)>>,
    code: u32,
    position: (i64, i64),
) -> bool {
    lists.contains_key(code) && lists[code]@.contains(position)
}

/// `cell` comes before row `row`, column `col` in reading order.
pub open spec fn read_before(cell: (int, int), row: int, col: int) -> bool {
    cell.1 < row || (cell.1 == row && cell.0 < col)
}

/// The grid and, for each frequency, the positions of its antennas, as
/// `(column, row)`.
pub struct Antennas {
    pub grid: Vec<Vec<char>>,
    pub antennas: HashMap<u32, Vec<(i64, i64)>>,
}

impl Antennas {
    /// The rows of characters of the grid.
    pub open spec fn rows(&self) -> Seq<Seq<char>> {
        rows_of(self.grid)
    }

    /// The grid is a rectangle, and the lists hold exactly its antennas.
    pub open spec fn wf(&self) -> bool {
        &&& even(self.rows())
        &&& forall|code: u32, position: (i64, i64)| #[trigger]
            listed(self.antennas@, code, position) <==> antenna_at(
                self.rows(),
                as_cell(position),
                code,
            )
    }

    /// The antennas of `grid`: every letter and every number is one, of the
    /// frequency that the character names.
    pub fn new(grid: Vec<Vec<char>>) -> (found: Self)
        requires
            even(rows_of(grid)),
        ensures
            found.grid == grid,
            found.wf(),
    {
        broadcast use vstd::std_specs::hash::group_hash_axioms;

        let ghost rows = rows_of(grid);
        let mut antennas: HashMap<u32, Vec<(i64, i64)>> = HashMap::new();
        let mut y: usize = 0;
        while y < grid.len()
            invariant
                y <= grid.len(),
                rows == rows_of(grid),
                even(rows),
                forall|code: u32, position: (i64, i64)| #[trigger]
                    listed(antennas@, code, position) <==> antenna_at(
                        rows,
                        as_cell(position),
                        code,
                    ) && read_before(as_cell(position), y as int, 0),
            decreases grid.len() - y,
        {
            let row = &grid[y];
            let mut x: usize = 0;
            assert(rows[y as int].len() == rows[0].len());
            while x < row.len()
                invariant
                    y < grid.len(),
                    x <= row.len(),
                    row@ == rows[y as int],
                    row@.len() <= i64::MAX,
                    rows == rows_of(grid),
                    even(rows),
                    forall|code: u32, position: (i64, i64)| #[trigger]
                        listed(antennas@, code, position) <==> antenna_at(
                            rows,
                            as_cell(position),
                            code,
                        ) && read_before(as_cell(position), y as int, x as int),
                decreases row.len() - x,
            {
                let frequency = row[x];
                if is_alphanumeric(frequency) {
                    let ghost before = antennas@;
                    let here = (x as i64, y as i64);
                    let code = frequency as u32;
                    let mut list = match antennas.remove(&code) {
                        Some(list) => list,
                        None => Vec::new(),
                    };
                    let ghost old_list = list@;
                    list.push(here);
                    assert(list@.contains(here)) by {
                        assert(list@[old_list.len() as int] == here);
                    }
                    assert forall|position: (i64, i64)| list@.contains(position) <==> (
                    old_list.contains(position) || position == here) by {
                        if list@.contains(position) {
                            let t = choose|t: int| 0 <= t < list@.len() && list@[t] == position;
                            if t < old_list.len() {
                                assert(old_list[t] == position);
                            }
                        }
                        if old_list.contains(position) {
                            let t = choose|t: int|
                                0 <= t < old_list.len() && old_list[t] == position;
                            assert(list@[t] == position);
                        }
                    }
                    antennas.insert(code, list);
                    assert forall|other: u32, position: (i64, i64)| #[trigger]
                        listed(antennas@, other, position) <==> antenna_at(
                            rows,
                            as_cell(position),
                            other,
                        ) && read_before(as_cell(position), y as int, x + 1) by {
                        assert(listed(before, other, position) <==> antenna_at(
                            rows,
                            as_cell(position),
                            other,
                        ) && read_before(as_cell(position), y as int, x as int));
                    }
                }
                x += 1;
            }
            y += 1;
        }
        Self { grid, antennas }
    }

    /// Every two different antennas of one frequency, as an ordered pair:
    /// each two of them stand in the list both ways round.
    pub fn get_antenna_pairs(&self) -> (pairs: Vec<((i64, i64), (i64, i64))>)
        requires
            self.wf(),
        ensures
            forall|a: (i64, i64), b: (i64, i64)| #[trigger]
                pairs@.contains((a, b)) <==> paired(self.rows(), as_cell(a), as_cell(b)),
    {
        broadcast use vstd::std_specs::hash::group_hash_axioms;

        let mut pairs: Vec<((i64, i64), (i64, i64))> = Vec::new();
        let ghost lists = self.antennas@;
        let ghost mut visited: Set<u32> = Set::empty();
        for entry in it: self.antennas.iter()
            invariant
                self.wf(),
                lists == self.antennas@,
                forall|t: int|
                    0 <= t < it.seq().len() ==> lists.contains_key(*(#[trigger] it.seq()[t]).0)
                        && lists[*it.seq()[t].0] == *it.seq()[t].1,
                forall|code: u32| #[trigger]
                    lists.contains_key(code) ==> exists|t: int|
                        0 <= t < it.seq().len() && *(#[trigger] it.seq()[t]).0 == code,
                forall|code: u32| #[trigger]
                    visited.contains(code) <==> exists|t: int|
                        0 <= t < it.index() && *(#[trigger] it.seq()[t]).0 == code,
                it.index() == it.seq().len() ==> forall|code: u32| #[trigger]
                    lists.contains_key(code) ==> visited.contains(code),
                forall|a: (i64, i64), b: (i64, i64)| #[trigger]
                    pairs@.contains((a, b)) <==> a != b && both_listed(lists, visited, a, b),
        {
            let antennas = entry.1;
            let ghost code = *entry.0;
            let ghost done = it.index() as int;
            assert(*it.seq()[done].0 == code && it.seq()[done].1 == antennas);
            assert(lists.contains_key(code) && lists[code] == *antennas);
            let mut i: usize = 0;
            while i < antennas.len()
                invariant
                    i <= antennas.len(),
                    forall|a: (i64, i64), b: (i64, i64)| #[trigger]
                        pairs@.contains((a, b)) <==> a != b && (both_listed(lists, visited, a, b)
                            || (exists|u: int, v: int|
                            0 <= u < i && 0 <= v < antennas@.len() && antennas@[u] == a
                                && antennas@[v] == b)),
                decreases antennas.len() - i,
            {
                let mut j: usize = 0;
                while j < antennas.len()
                    invariant
                        i < antennas.len(),
                        j <= antennas.len(),
                        forall|a: (i64, i64), b: (i64, i64)| #[trigger]
                            pairs@.contains((a, b)) <==> a != b && (both_listed(
                                lists,
                                visited,
                                a,
                                b,
                            ) || (exists|u: int, v: int|
                                ((0 <= u < i && 0 <= v < antennas@.len()) || (u == i && 0 <= v
                                    < j)) && antennas@[u] == a && antennas@[v] == b)),
                    decreases antennas.len() - j,
                {
                    let a = antennas[i];
                    let b = antennas[j];
                    let ghost old_pairs = pairs@;
                    if a.0 != b.0 || a.1 != b.1 {
                        pairs.push((a, b));
                        assert(pairs@[old_pairs.len() as int] == (a, b));
                    }
                    assert forall|p: (i64, i64), q: (i64, i64)| #[trigger]
                        pairs@.contains((p, q)) <==> p != q && (both_listed(lists, visited, p, q)
                            || (exists|u: int, v: int|
                            ((0 <= u < i && 0 <= v < antennas@.len()) || (u == i && 0 <= v < j
                                + 1)) && antennas@[u] == p && antennas@[v] == q)) by {
                        if pairs@.contains((p, q)) {
                            let t = choose|t: int| 0 <= t < pairs@.len() && pairs@[t] == (p, q);
                            if t < old_pairs.len() {
                                assert(old_pairs[t] == (p, q));
                                assert(old_pairs.contains((p, q)));
                            } else {
                                assert(antennas@[i as int] == p && antennas@[j as int] == q);
                            }
                        }
                        if p != q && (exists|u: int, v: int|
                            ((0 <= u < i && 0 <= v < antennas@.len()) || (u == i && 0 <= v < j
                                + 1)) && antennas@[u] == p && antennas@[v] == q) {
                            let (u, v) = choose|u: int, v: int|
                                ((0 <= u < i && 0 <= v < antennas@.len()) || (u == i && 0 <= v
                                    < j + 1)) && antennas@[u] == p && antennas@[v] == q;
                            if u == i && v == j {
                                assert(pairs@[old_pairs.len() as int] == (p, q));
                            } else {
                                assert(old_pairs.contains((p, q)));
                                let t = choose|t: int|
                                    0 <= t < old_pairs.len() && old_pairs[t] == (p, q);
                                assert(pairs@[t] == (p, q));
                            }
                        }
                        if p != q && both_listed(lists, visited, p, q) {
                            assert(old_pairs.contains((p, q)));
                            let t = choose|t: int|
                                0 <= t < old_pairs.len() && old_pairs[t] == (p, q);
                            assert(pairs@[t] == (p, q));
                        }
                    }
                    j += 1;
                }
                i += 1;
            }
            let ghost more = visited.insert(code);
            assert forall|a: (i64, i64), b: (i64, i64)| #[trigger]
                pairs@.contains((a, b)) <==> a != b && both_listed(lists, more, a, b) by {
                if pairs@.contains((a, b)) {
                    if both_listed(lists, visited, a, b) {
                        let found = choose|found: u32|
                            visited.contains(found) && listed(lists, found, a) && listed(
                                lists,
                                found,
                                b,
                            );
                        assert(more.contains(found));
                    } else {
                        let (u, v) = choose|u: int, v: int|
                            0 <= u < i && 0 <= v < antennas@.len() && antennas@[u] == a
                                && antennas@[v] == b;
                        assert(antennas@.contains(a) && antennas@.contains(b));
                        assert(more.contains(code) && listed(lists, code, a) && listed(
                            lists,
                            code,
                            b,
                        ));
                    }
                }
                if a != b && both_listed(lists, more, a, b) {
                    let found = choose|found: u32|
                        more.contains(found) && listed(lists, found, a) && listed(
                            lists,
                            found,
                            b,
                        );
                    if found == code {
                        let u = choose|u: int| 0 <= u < antennas@.len() && antennas@[u] == a;
                        let v = choose|v: int| 0 <= v < antennas@.len() && antennas@[v] == b;
                        assert(0 <= u < i && 0 <= v < antennas@.len() && antennas@[u] == a
                            && antennas@[v] == b);
                    } else {
                        assert(visited.contains(found));
                        assert(both_listed(lists, visited, a, b));
                    }
                }
            }
            proof {
                visited = more;
            }
        }
        assert forall|a: (i64, i64), b: (i64, i64)| #[trigger]
            pairs@.contains((a, b)) <==> paired(self.rows(), as_cell(a), as_cell(b)) by {
            if pairs@.contains((a, b)) {
                let code = choose|code: u32|
                    visited.contains(code) && listed(lists, code, a) && listed(lists, code, b);
                assert(listed(lists, code, a));
                assert(listed(lists, code, b));
                assert(as_cell(a) != as_cell(b));
            }
            if paired(self.rows(), as_cell(a), as_cell(b)) {
                let code = choose|code: u32|
                    antenna_at(self.rows(), as_cell(a), code) && antenna_at(
                        self.rows(),
                        as_cell(b),
                        code,
                    );
                assert(listed(lists, code, a));
                assert(listed(lists, code, b));
                assert(visited.contains(code));
            }
        }
        pairs
    }

    /// Whether `node`, as `(column, row)`, lies on the grid.
    pub fn is_in_grid(&self, node: (i64, i64)) -> (inside: bool)
        requires
            self.wf(),
        ensures
            inside == in_grid(self.rows(), as_cell(node)),
    {
        if self.grid.len() == 0 {
            return false;
        }
        0 <= node.1 && node.1 < self.grid.len() as i64 && 0 <= node.0 && node.0
            < self.grid[0].len() as i64
    }

    /// The position that the coordinates name, where it lies on the grid.
    fn on_grid(&self, x: i128, y: i128) -> (node: Option<(i64, i64)>)
        requires
            self.wf(),
        ensures
            match node {
                Some(position) => as_cell(position) == (x as int, y as int) && in_grid(
                    self.rows(),
                    (x as int, y as int),
                ),
                None => !in_grid(self.rows(), (x as int, y as int)),
            },
    {
        if x < 0 || y < 0 || x > i64::MAX as i128 || y > i64::MAX as i128 {
            return None;
        }
        let node = (x as i64, y as i64);
        if self.is_in_grid(node) {
            Some(node)
        } else {
            None
        }
    }

    /// The antinodes that the pairs of antennas throw onto the grid with
    /// `starting_jump` jumps or more, and with no more than `jumps` where
    /// that is given; `TooLarge` where there are more than can be counted.
    pub fn find_antinodes(&self, jumps: Option<u64>, starting_jump: u64) -> (found: Result<
        PositionSet,
        InputError,
    >)
        requires
            self.wf(),
        ensures
            antinodes(self.rows(), starting_jump, jumps).finite(),
            match found {
                Ok(set) => set.wf() && set@ == antinodes(self.rows(), starting_jump, jumps),
                Err(fault) => fault == InputError::TooLarge && antinodes(
                    self.rows(),
                    starting_jump,
                    jumps,
                ).len() > usize::MAX,
            },
    {
        let ghost rows = self.rows();
        let ghost all = antinodes(rows, starting_jump, jumps);
        proof {
            lemma_antinodes_finite(rows, starting_jump, jumps);
        }
        let antenna_pairs = self.get_antenna_pairs();
        let mut nodes = PositionSet::new();
        let mut p: usize = 0;
        assert(nodes@ =~= thrown_so_far(
            rows,
            antenna_pairs@,
            0,
            starting_jump,
            jumps,
            (0, 0),
            (0, 0),
            0,
        ));
        while p < antenna_pairs.len()
            invariant
                self.wf(),
                p <= antenna_pairs.len(),
                rows == self.rows(),
                all == antinodes(rows, starting_jump, jumps),
                all.finite(),
                forall|a: (i64, i64), b: (i64, i64)| #[trigger]
                    antenna_pairs@.contains((a, b)) <==> paired(rows, as_cell(a), as_cell(b)),
                nodes.wf(),
                nodes@ == thrown_so_far(
                    rows,
                    antenna_pairs@,
                    p as int,
                    starting_jump,
                    jumps,
                    (0, 0),
                    (0, 0),
                    0,
                ),
            decreases antenna_pairs.len() - p,
        {
            let (a, b) = antenna_pairs[p];
            assert(antenna_pairs@.contains((a, b)));
            let ghost ca = as_cell(a);
            let ghost cb = as_cell(b);
            proof {
                lemma_paired_on_grid(rows, ca, cb);
            }
            let dx = b.0 as i128 - a.0 as i128;
            let dy = b.1 as i128 - a.1 as i128;
            let mut curr_jumps = starting_jump;
            assert(nodes@ =~= thrown_so_far(
                rows,
                antenna_pairs@,
                p as int,
                starting_jump,
                jumps,
                ca,
                cb,
                starting_jump as int,
            ));
            loop
                invariant_except_break
                    nodes@ == thrown_so_far(
                        rows,
                        antenna_pairs@,
                        p as int,
                        starting_jump,
                        jumps,
                        ca,
                        cb,
                        curr_jumps as int,
                    ),
                    starting_jump <= curr_jumps,
                invariant
                    self.wf(),
                    p < antenna_pairs.len(),
                    rows == self.rows(),
                    all == antinodes(rows, starting_jump, jumps),
                    all.finite(),
                    (a, b) == antenna_pairs@[p as int],
                    forall|a: (i64, i64), b: (i64, i64)| #[trigger]
                        antenna_pairs@.contains((a, b)) <==> paired(
                            rows,
                            as_cell(a),
                            as_cell(b),
                        ),
                    ca == as_cell(a),
                    cb == as_cell(b),
                    paired(rows, ca, cb),
                    in_grid(rows, ca),
                    in_grid(rows, cb),
                    dx == cb.0 - ca.0,
                    dy == cb.1 - ca.1,
                    nodes.wf(),
                ensures
                    nodes@ == thrown_so_far(
                        rows,
                        antenna_pairs@,
                        p + 1,
                        starting_jump,
                        jumps,
                        (0, 0),
                        (0, 0),
                        0,
                    ),
                decreases room_left(rows, curr_jumps as int),
            {
                let within = match jumps {
                    Some(most) => curr_jumps <= most,
                    None => true,
                };
                if !within {
                    proof {
                        assert(nodes@ =~= thrown_so_far(
                            rows,
                            antenna_pairs@,
                            p + 1,
                            starting_jump,
                            jumps,
                            (0, 0),
                            (0, 0),
                            0,
                        )) by {
                            lemma_pair_complete(
                                rows,
                                antenna_pairs@,
                                p as int,
                                starting_jump,
                                jumps,
                                curr_jumps as int,
                            );
                        }
                    }
                    break ;
                }
                let k = curr_jumps as i128;
                assert(-0x7fff_ffff_ffff_ffff * 0xffff_ffff_ffff_ffff <= dx * k
                    <= 0x7fff_ffff_ffff_ffff * 0xffff_ffff_ffff_ffff && -0x7fff_ffff_ffff_ffff
                    * 0xffff_ffff_ffff_ffff <= dy * k <= 0x7fff_ffff_ffff_ffff
                    * 0xffff_ffff_ffff_ffff) by (nonlinear_arith)
                    requires
                        -0x7fff_ffff_ffff_ffff <= dx <= 0x7fff_ffff_ffff_ffff,
                        -0x7fff_ffff_ffff_ffff <= dy <= 0x7fff_ffff_ffff_ffff,
                        0 <= k <= 0xffff_ffff_ffff_ffff,
                ;
                let antinode_1 = self.on_grid(b.0 as i128 + dx * k, b.1 as i128 + dy * k);
                let antinode_2 = self.on_grid(a.0 as i128 - dx * k, a.1 as i128 - dy * k);
                proof {
                    assert(beyond(ca, cb, k as int) == (cb.0 + dx * k, cb.1 + dy * k))
                        by (nonlinear_arith)
                        requires
                            dx == cb.0 - ca.0,
                            dy == cb.1 - ca.1,
                    ;
                    assert(beyond(cb, ca, k as int) == (ca.0 - dx * k, ca.1 - dy * k))
                        by (nonlinear_arith)
                        requires
                            dx == cb.0 - ca.0,
                            dy == cb.1 - ca.1,
                    ;
                }
                let ghost before = nodes@;
                match (antinode_1, antinode_2) {
                    (None, None) => {
                        proof {
                            assert(nodes@ =~= thrown_so_far(
                                rows,
                                antenna_pairs@,
                                p + 1,
                                starting_jump,
                                jumps,
                                (0, 0),
                                (0, 0),
                                0,
                            )) by {
                                assert forall|cell: (int, int), m: int|
                                    in_grid(rows, cell) && wanted(m, starting_jump, jumps)
                                        && #[trigger] thrown_either(
                                        cell,
                                        ca,
                                        cb,
                                        m,
                                    ) implies m < curr_jumps by {
                                    if m >= curr_jumps {
                                        lemma_out_stays_out(rows, ca, cb, k as int, m);
                                        lemma_out_stays_out(rows, cb, ca, k as int, m);
                                    }
                                }
                                lemma_pair_complete(
                                    rows,
                                    antenna_pairs@,
                                    p as int,
                                    starting_jump,
                                    jumps,
                                    curr_jumps as int,
                                );
                            }
                        }
                        break ;
                    },
                    _ => {},
                }
                let ghost next = thrown_so_far(
                    rows,
                    antenna_pairs@,
                    p as int,
                    starting_jump,
                    jumps,
                    ca,
                    cb,
                    curr_jumps + 1,
                );
                proof {
                    lemma_subset_of_all(
                        rows,
                        antenna_pairs@,
                        p as int,
                        starting_jump,
                        jumps,
                        curr_jumps + 1,
                    );
                    lemma_step_thrown(
                        rows,
                        antenna_pairs@,
                        p as int,
                        starting_jump,
                        jumps,
                        ca,
                        cb,
                        curr_jumps as int,
                    );
                    lemma_jumps_bounded(rows, ca, cb, k as int);
                    lemma_jumps_bounded(rows, cb, ca, k as int);
                    assert(nodes@.subset_of(next));
                }
                match antinode_1 {
                    Some(node) => {
                        if !nodes.contains(node) {
                            if nodes.len() == usize::MAX {
                                proof {
                                    nodes.lemma_finite();
                                    assert(nodes@.insert(as_cell(node)).subset_of(all));
                                    vstd::set_lib::lemma_len_subset(
                                        nodes@.insert(as_cell(node)),
                                        all,
                                    );
                                }
                                return Err(InputError::TooLarge);
                            }
                            nodes.insert(node);
                        }
                    },
                    None => {},
                }
                assert(nodes@.subset_of(next));
                match antinode_2 {
                    Some(node) => {
                        if !nodes.contains(node) {
                            if nodes.len() == usize::MAX {
                                proof {
                                    nodes.lemma_finite();
                                    assert(nodes@.insert(as_cell(node)).subset_of(all));
                                    vstd::set_lib::lemma_len_subset(
                                        nodes@.insert(as_cell(node)),
                                        all,
                                    );
                                }
                                return Err(InputError::TooLarge);
                            }
                            nodes.insert(node);
                        }
                    },
                    None => {},
                }
                proof {
                    assert(nodes@ =~= thrown_so_far(
                        rows,
                        antenna_pairs@,
                        p as int,
                        starting_jump,
                        jumps,
                        ca,
                        cb,
                        curr_jumps + 1,
                    ));
                }
                curr_jumps += 1;
            }
            p += 1;
        }
        proof {
            lemma_all_thrown(rows, antenna_pairs@, starting_jump, jumps);
        }
        Ok(nodes)
    }
}

/// Some frequency among `codes` has both positions in its list.
pub open spec fn both_listed(
    lists: Map<u32, Vec<(i64, i64)>>,
    codes: Set<u32>,
    a: (i64, i64),
    b: (i64, i64),
) -> bool {
    exists|code: u32| codes.contains(code) && listed(lists, code, a) && listed(lists, code, b)
}

/// Whether the grid is a rectangle whose cells positions can name.
pub fn is_even(grid: &Vec<Vec<char>>) -> (even_rows: bool)
    ensures
        even_rows == even(rows_of(*grid)),
{
    let ghost rows = rows_of(*grid);
    if grid.len() == 0 {
        return true;
    }
    if grid.len() as u64 > i64::MAX as u64 {
        return false;
    }
    let width = grid[0].len();
    if width as u64 > i64::MAX as u64 {
        return false;
    }
    let mut k: usize = 0;
    while k < grid.len()
        invariant
            k <= grid.len(),
            grid@.len() > 0,
            rows == rows_of(*grid),
            width == rows[0].len(),
            forall|r: int| 0 <= r < k ==> (#[trigger] rows[r]).len() == width,
        decreases grid.len() - k,
    {
        if grid[k].len() != width {
            assert(rows[k as int].len() != rows[0].len());
            return false;
        }
        k += 1;
    }
    true
}

/// What the count of the antinodes of a grid comes to as an answer:
/// `Malformed` where the grid is no rectangle, `TooLarge` where the
/// antinodes are more than can be counted.
pub open spec fn answer_of(rows: Seq<Seq<char>>, from: u64, upto: Option<u64>) -> Result<
    usize,
    InputError,
> {
    if !even(rows) {
        Err(InputError::Malformed)
    } else if antinodes(rows, from, upto).len() > usize::MAX {
        Err(InputError::TooLarge)
    } else {
        Ok(antinodes(rows, from, upto).len() as usize)
    }
}

/// Reads the grid of the text and counts its antinodes.
fn count_antinodes(input: &str, jumps: Option<u64>, starting_jump: u64) -> (count: Result<
    usize,
    InputError,
>)
    ensures
        count == answer_of(lines_of(input@), starting_jump, jumps),
{
    let chars = chars_of(input);
    let grid = split_lines(&chars);
    if !is_even(&grid) {
        return Err(InputError::Malformed);
    }
    let antennas = Antennas::new(grid);
    match antennas.find_antinodes(jumps, starting_jump) {
        Ok(nodes) => {
            proof {
                nodes.lemma_finite();
            }
            Ok(nodes.len())
        },
        Err(fault) => Err(fault),
    }
}

/// How many cells of the grid hold an antinode thrown with exactly one
/// jump: as far beyond one antenna of a pair as the two are apart.
pub fn find_all_antinodes(input: &str) -> (count: Result<usize, InputError>)
    ensures
        count == answer_of(lines_of(input@), 1, Some(1u64)),
{
    count_antinodes(input, Some(1), 1)
}

/// How many cells of the grid hold an antinode thrown with any count of
/// jumps, none included: every cell in line with a pair and in step with it.
pub fn find_all_extended_antinodes(input: &str) -> (count: Result<usize, InputError>)
    ensures
        count == answer_of(lines_of(input@), 0, None),
{
    count_antinodes(input, None, 0)
}

} // verus!
