//! A word search: how often `XMAS` is written in a grid of letters, in any
//! of the eight directions, and how often two `MAS` cross on their `A`.

use vstd::prelude::*;
use crate::grid::{hit, lemma_partial_sum_bounded, letter, sum_cells, sum_grid, sum_rows};
use crate::text::{chars_of, lines_of, rows_of, split_lines, InputError};

verus! {

/// `XMAS` is written from row `r`, column `c` on, each letter `(dr, dc)`
/// away from the one before.
pub open spec fn spells_xmas(rows: Seq<Seq<char>>, r: int, c: int, dr: int, dc: int) -> bool {
    &&& letter(rows, r, c) == Some('X')
    &&& letter(rows, r + dr, c + dc) == Some('M')
    &&& letter(rows, r + 2 * dr, c + 2 * dc) == Some('A')
    &&& letter(rows, r + 3 * dr, c + 3 * dc) == Some('S')
}

/// In how many of the eight directions `XMAS` is written from a cell on.
pub open spec fn xmas_from(rows: Seq<Seq<char>>, r: int, c: int) -> nat {
    hit(spells_xmas(rows, r, c, -1, -1)) + hit(spells_xmas(rows, r, c, -1, 0)) + hit(
        spells_xmas(rows, r, c, -1, 1),
    ) + hit(spells_xmas(rows, r, c, 0, -1)) + hit(spells_xmas(rows, r, c, 0, 1)) + hit(
        spells_xmas(rows, r, c, 1, -1),
    ) + hit(spells_xmas(rows, r, c, 1, 0)) + hit(spells_xmas(rows, r, c, 1, 1))
}

/// How often `XMAS` is written in the rows.
pub open spec fn xmas_count(rows: Seq<Seq<char>>) -> nat {
    sum_grid(rows, |r: int, c: int| xmas_from(rows, r, c))
}

/// The two ends of a diagonal are an `M` and an `S`, either way round.
pub open spec fn mas_ends(a: Option<char>, b: Option<char>) -> bool {
    (a == Some('M') && b == Some('S')) || (a == Some('S') && b == Some('M'))
}

/// Both diagonals through a cell have an `M` at one end and an `S` at the other.
pub open spec fn mas_crossing(rows: Seq<Seq<char>>, r: int, c: int) -> bool {
    &&& mas_ends(letter(rows, r - 1, c - 1), letter(rows, r + 1, c + 1))
    &&& mas_ends(letter(rows, r + 1, c - 1), letter(rows, r - 1, c + 1))
}

/// Two `MAS` cross on the `A` of a cell.
pub open spec fn cross_on(rows: Seq<Seq<char>>, r: int, c: int) -> bool {
    letter(rows, r, c) == Some('A') && mas_crossing(rows, r, c)
}

/// On how many cells two `MAS` cross.
pub open spec fn cross_count(rows: Seq<Seq<char>>) -> nat {
    sum_grid(rows, |r: int, c: int| hit(cross_on(rows, r, c)))
}

/// A grid of letters.
pub struct WordSearch {
    pub grid: Vec<Vec<char>>,
}

impl WordSearch {
    /// The rows of letters of the grid.
    pub open spec fn rows(&self) -> Seq<Seq<char>> {
        rows_of(self.grid)
    }

    /// The grid without rows.
    pub fn new() -> (search: Self)
        ensures
            search.grid@.len() == 0,
    {
        Self { grid: Vec::new() }
    }

    /// The grid that `input` draws: one row for each line.
    pub fn from_text(input: &str) -> (search: Self)
        ensures
            search.rows() == lines_of(input@),
    {
        let chars = chars_of(input);
        Self { grid: split_lines(&chars) }
    }

    /// Whether the grid has the letter `wanted` on row `r`, column `c`.
    fn has_letter(&self, r: i128, c: i128, wanted: char) -> (found: bool)
        ensures
            found == (letter(self.rows(), r as int, c as int) == Some(wanted)),
    {
        if r < 0 || c < 0 || r >= self.grid.len() as i128 {
            return false;
        }
        let row = &self.grid[r as usize];
        if c >= row.len() as i128 {
            return false;
        }
        row[c as usize] == wanted
    }

    /// How often `XMAS` is written in the grid, or `TooLarge` where that
    /// number does not fit.
    pub fn find_xmas_count(&self) -> (count: Result<u64, InputError>)
        ensures
            match count {
                Ok(found) => found == xmas_count(self.rows()),
                Err(fault) => fault == InputError::TooLarge && xmas_count(self.rows()) > u64::MAX,
            },
    {
        let ghost rows = self.rows();
        let ghost weight = |r: int, c: int| xmas_from(rows, r, c);
        let mut total: u64 = 0;
        let mut i: usize = 0;
        while i < self.grid.len()
            invariant
                i <= self.grid.len(),
                rows == self.rows(),
                weight == (|r: int, c: int| xmas_from(rows, r, c)),
                total == sum_rows(rows, weight, i as int),
            decreases self.grid.len() - i,
        {
            let row = &self.grid[i];
            let mut j: usize = 0;
            while j < row.len()
                invariant
                    i < self.grid.len(),
                    j <= row.len(),
                    row@ == rows[i as int],
                    rows == self.rows(),
                    weight == (|r: int, c: int| xmas_from(rows, r, c)),
                    total == sum_rows(rows, weight, i as int) + sum_cells(
                        weight,
                        i as int,
                        j as int,
                    ),
                decreases row.len() - j,
            {
                let here = self.count_xmas_from(i, j);
                assert(weight(i as int, j as int) == here);
                proof {
                    lemma_partial_sum_bounded(rows, weight, i as int, j + 1);
                }
                if here > u64::MAX - total {
                    return Err(InputError::TooLarge);
                }
                total = total + here;
                j += 1;
            }
            i += 1;
        }
        Ok(total)
    }

    /// In how many of the eight directions `XMAS` is written from row `i`,
    /// column `j` on.
    fn count_xmas_from(&self, i: usize, j: usize) -> (found: u64)
        requires
            i < self.grid@.len(),
            j < self.grid@[i as int]@.len(),
        ensures
            found == xmas_from(self.rows(), i as int, j as int),
    {
        if self.grid[i][j] != 'X' {
            return 0;
        }
        let mut found: u64 = 0;
        if self.check_xmas_match(&i, &j, (-1, -1)) {
            found += 1;
        }
        if self.check_xmas_match(&i, &j, (-1, 0)) {
            found += 1;
        }
        if self.check_xmas_match(&i, &j, (-1, 1)) {
            found += 1;
        }
        if self.check_xmas_match(&i, &j, (0, -1)) {
            found += 1;
        }
        if self.check_xmas_match(&i, &j, (0, 1)) {
            found += 1;
        }
        if self.check_xmas_match(&i, &j, (1, -1)) {
            found += 1;
        }
        if self.check_xmas_match(&i, &j, (1, 0)) {
            found += 1;
        }
        if self.check_xmas_match(&i, &j, (1, 1)) {
            found += 1;
        }
        found
    }

    /// On how many cells of the grid two `MAS` cross, or `TooLarge` where
    /// that number does not fit.
    pub fn find_xmas_cross_count(&self) -> (count: Result<u64, InputError>)
        ensures
            match count {
                Ok(found) => found == cross_count(self.rows()),
                Err(fault) => fault == InputError::TooLarge && cross_count(self.rows()) > u64::MAX,
            },
    {
        let ghost rows = self.rows();
        let ghost weight = |r: int, c: int| hit(cross_on(rows, r, c));
        let mut total: u64 = 0;
        let mut i: usize = 0;
        while i < self.grid.len()
            invariant
                i <= self.grid.len(),
                rows == self.rows(),
                weight == (|r: int, c: int| hit(cross_on(rows, r, c))),
                total == sum_rows(rows, weight, i as int),
            decreases self.grid.len() - i,
        {
            let row = &self.grid[i];
            let mut j: usize = 0;
            while j < row.len()
                invariant
                    i < self.grid.len(),
                    j <= row.len(),
                    row@ == rows[i as int],
                    rows == self.rows(),
                    weight == (|r: int, c: int| hit(cross_on(rows, r, c))),
                    total == sum_rows(rows, weight, i as int) + sum_cells(
                        weight,
                        i as int,
                        j as int,
                    ),
                decreases row.len() - j,
            {
                let here: u64 = if row[j] != 'A' {
                    0
                } else if self.check_xmas_cross_match(&i, &j) {
                    1
                } else {
                    0
                };
                assert(weight(i as int, j as int) == here);
                proof {
                    lemma_partial_sum_bounded(rows, weight, i as int, j + 1);
                }
                if here > u64::MAX - total {
                    return Err(InputError::TooLarge);
                }
                total = total + here;
                j += 1;
            }
            i += 1;
        }
        Ok(total)
    }

    /// Whether `XMAS` is written from row `i`, column `j` on, each letter
    /// `direction` away from the one before.
    pub fn check_xmas_match(&self, i: &usize, j: &usize, direction: (i64, i64)) -> (found: bool)
        ensures
            found == spells_xmas(
                self.rows(),
                *i as int,
                *j as int,
                direction.0 as int,
                direction.1 as int,
            ),
    {
        let r = *i as i128;
        let c = *j as i128;
        let dr = direction.0 as i128;
        let dc = direction.1 as i128;
        self.has_letter(r, c, 'X') && self.has_letter(r + dr, c + dc, 'M') && self.has_letter(
            r + 2 * dr,
            c + 2 * dc,
            'A',
        ) && self.has_letter(r + 3 * dr, c + 3 * dc, 'S')
    }

    /// Whether both diagonals through row `i`, column `j` have an `M` at one
    /// end and an `S` at the other.
    pub fn check_xmas_cross_match(&self, i: &usize, j: &usize) -> (found: bool)
        ensures
            found == mas_crossing(self.rows(), *i as int, *j as int),
    {
        let r = *i as i128;
        let c = *j as i128;
        let falling = (self.has_letter(r - 1, c - 1, 'M') && self.has_letter(r + 1, c + 1, 'S'))
            || (self.has_letter(r - 1, c - 1, 'S') && self.has_letter(r + 1, c + 1, 'M'));
        let rising = (self.has_letter(r + 1, c - 1, 'M') && self.has_letter(r - 1, c + 1, 'S'))
            || (self.has_letter(r + 1, c - 1, 'S') && self.has_letter(r - 1, c + 1, 'M'));
        falling && rising
    }
}

/// How often `XMAS` is written in the grid that `input` draws.
pub fn find_xmas_wordsearch(input: &str) -> (count: Result<u64, InputError>)
    ensures
        match count {
            Ok(found) => found == xmas_count(lines_of(input@)),
            Err(fault) => fault == InputError::TooLarge && xmas_count(lines_of(input@))
                > u64::MAX,
        },
{
    let word_search = WordSearch::from_text(input);
    word_search.find_xmas_count()
}

/// On how many cells of the grid that `input` draws two `MAS` cross.
pub fn find_xmas_cross_wordsearch(input: &str) -> (count: Result<u64, InputError>)
    ensures
        match count {
            Ok(found) => found == cross_count(lines_of(input@)),
            Err(fault) => fault == InputError::TooLarge && cross_count(lines_of(input@))
                > u64::MAX,
        },
{
    let word_search = WordSearch::from_text(input);
    word_search.find_xmas_cross_count()
}

} // verus!
