//! Hiking trails on a map of heights: a trail climbs from height 0 to
//! height 9, one step up at a time, between cells that share a side.

use vstd::prelude::*;
use crate::cells::{as_cell, PositionSet};
use crate::grid::{lemma_partial_sum_bounded, sum_cells, sum_grid, sum_rows};
use crate::text::{chars_of, digit_value, is_digit, lines_of, rows_of, split_lines, InputError};

verus! {

/// The height on row `r`, column `c`, or `None` outside the map.
pub open spec fn height(rows: Seq<Seq<u8>>, r: int, c: int) -> Option<u8> {
    if 0 <= r < rows.len() && 0 <= c < rows[r].len() {
        Some(rows[r][c])
    } else {
        None
    }
}

/// The ends of the trails that go on from `(r, c)` over its neighbour
/// `(nr, nc)`: none unless the neighbour is on the map and one higher.
pub open spec fn climbs(rows: Seq<Seq<u8>>, r: int, c: int, nr: int, nc: int) -> Seq<(int, int)>
    decreases 256 - rows[r][c], 0int,
{
    if 0 <= r < rows.len() && 0 <= c < rows[r].len() && height(rows, nr, nc) == Some(
        (rows[r][c] + 1) as u8,
    ) && rows[r][c] < 255 {
        trail_ends(rows, nr, nc)
    } else {
        Seq::empty()
    }
}

/// The end of every trail that goes on from `(r, c)` up to height 9: one
/// entry for each trail, so a peak reached on several ways stands several
/// times. The neighbours are tried above, left, right, below.
pub open spec fn trail_ends(rows: Seq<Seq<u8>>, r: int, c: int) -> Seq<(int, int)>
    decreases 256 - rows[r][c], 1int,
{
    if !(0 <= r < rows.len() && 0 <= c < rows[r].len()) {
        Seq::empty()
    } else if rows[r][c] == 9 {
        seq![(r, c)]
    } else {
        climbs(rows, r, c, r - 1, c) + climbs(rows, r, c, r, c - 1) + climbs(rows, r, c, r, c + 1)
            + climbs(rows, r, c, r + 1, c)
    }
}

/// The score of a cell: how many peaks its trails reach, where it is a
/// trailhead (height 0); nothing elsewhere.
pub open spec fn score(rows: Seq<Seq<u8>>, r: int, c: int) -> nat {
    if height(rows, r, c) == Some(0u8) {
        trail_ends(rows, r, c).to_set().len()
    } else {
        0
    }
}

/// The rating of a cell: how many trails start on it, where it is a
/// trailhead (height 0); nothing elsewhere.
pub open spec fn rating(rows: Seq<Seq<u8>>, r: int, c: int) -> nat {
    if height(rows, r, c) == Some(0u8) {
        trail_ends(rows, r, c).len()
    } else {
        0
    }
}

/// The sum of the scores of all cells.
pub open spec fn total_score(rows: Seq<Seq<u8>>) -> nat {
    sum_grid(rows, |r: int, c: int| score(rows, r, c))
}

/// The sum of the ratings of all cells.
pub open spec fn total_rating(rows: Seq<Seq<u8>>) -> nat {
    sum_grid(rows, |r: int, c: int| rating(rows, r, c))
}

/// The heights that the digits of `line` write; other characters are passed over.
pub open spec fn heights_of(line: Seq<char>) -> Seq<u8>
    decreases line.len(),
{
    if line.len() == 0 {
        Seq::empty()
    } else if is_digit(line.last()) {
        heights_of(line.drop_last()).push(digit_value(line.last()) as u8)
    } else {
        heights_of(line.drop_last())
    }
}

/// The map that the lines draw: one row of heights for each line.
pub open spec fn map_of(lines: Seq<Seq<char>>) -> Seq<Seq<u8>> {
    Seq::new(lines.len(), |r: int| heights_of(lines[r]))
}

/// The map is a rectangle of heights from 0 to 9 whose cells positions can name.
pub open spec fn even(rows: Seq<Seq<u8>>) -> bool {
    &&& rows.len() <= i64::MAX
    &&& forall|r: int| 0 <= r < rows.len() ==> (#[trigger] rows[r]).len() == rows[0].len()
    &&& rows.len() > 0 ==> rows[0].len() <= i64::MAX
    &&& forall|r: int, c: int|
        0 <= r < rows.len() && 0 <= c < rows[r].len() ==> #[trigger] rows[r][c] <= 9
}

/// What the total of the scores, or of the ratings, comes to as an answer:
/// `Malformed` where the map is no rectangle, `TooLarge` where the total
/// does not fit.
pub open spec fn answer_of(rows: Seq<Seq<u8>>, total: nat) -> Result<u64, InputError> {
    if !even(rows) {
        Err(InputError::Malformed)
    } else if total > u64::MAX {
        Err(InputError::TooLarge)
    } else {
        Ok(total as u64)
    }
}

/// The cells that a vector of positions names.
pub open spec fn spots(positions: Seq<(i64, i64)>) -> Seq<(int, int)> {
    positions.map_values(|position: (i64, i64)| as_cell(position))
}

/// A map of heights.
pub struct Mountain {
    pub peaks: Vec<Vec<u8>>,
}

impl Mountain {
    /// The rows of heights of the map.
    pub open spec fn rows(&self) -> Seq<Seq<u8>> {
        rows_of(self.peaks)
    }

    /// The map is a rectangle of heights from 0 to 9.
    pub open spec fn wf(&self) -> bool {
        even(self.rows())
    }

    /// The map without rows.
    pub fn new() -> (mountain: Self)
        ensures
            mountain.peaks@.len() == 0,
    {
        Mountain { peaks: Vec::new() }
    }

    /// The map that `value` draws: one row for each line, one height for
    /// each digit.
    pub fn from_text(value: &str) -> (mountain: Self)
        ensures
            mountain.rows() == map_of(lines_of(value@)),
            forall|r: int, c: int|
                0 <= r < mountain.rows().len() && 0 <= c < mountain.rows()[r].len()
                    ==> #[trigger] mountain.rows()[r][c] <= 9,
    {
        let chars = chars_of(value);
        let lines = split_lines(&chars);
        let mut peaks: Vec<Vec<u8>> = Vec::new();
        let mut k: usize = 0;
        while k < lines.len()
            invariant
                k <= lines.len(),
                rows_of(lines) == lines_of(value@),
                peaks@.len() == k,
                forall|r: int| 0 <= r < k ==> (#[trigger] peaks@[r])@ == heights_of(lines@[r]@),
                forall|r: int, c: int|
                    0 <= r < k && 0 <= c < peaks@[r]@.len() ==> #[trigger] peaks@[r]@[c] <= 9,
            decreases lines.len() - k,
        {
            let line = &lines[k];
            let mut row: Vec<u8> = Vec::new();
            let mut at: usize = 0;
            assert(line@.take(0) =~= Seq::<char>::empty());
            while at < line.len()
                invariant
                    at <= line.len(),
                    row@ == heights_of(line@.take(at as int)),
                    forall|c: int| 0 <= c < row@.len() ==> #[trigger] row@[c] <= 9,
                decreases line.len() - at,
            {
                let c = line[at];
                assert(line@.take(at + 1).drop_last() =~= line@.take(at as int));
                if '0' <= c && c <= '9' {
                    row.push((c as u32 - '0' as u32) as u8);
                }
                at += 1;
            }
            assert(line@.take(at as int) =~= line@);
            peaks.push(row);
            k += 1;
        }
        let mountain = Mountain { peaks };
        assert(mountain.rows() =~= map_of(lines_of(value@)));
        mountain
    }

    /// Whether the map is a rectangle of heights from 0 to 9 whose cells
    /// positions can name.
    pub fn is_even(&self) -> (even_rows: bool)
        ensures
            even_rows == self.wf(),
    {
        let ghost rows = self.rows();
        if self.peaks.len() == 0 {
            return true;
        }
        if self.peaks.len() as u64 > i64::MAX as u64 {
            return false;
        }
        let width = self.peaks[0].len();
        if width as u64 > i64::MAX as u64 {
            return false;
        }
        let mut k: usize = 0;
        while k < self.peaks.len()
            invariant
                k <= self.peaks.len(),
                self.peaks@.len() > 0,
                rows == self.rows(),
                width == rows[0].len(),
                forall|r: int| 0 <= r < k ==> (#[trigger] rows[r]).len() == width,
                forall|r: int, c: int|
                    0 <= r < k && 0 <= c < rows[r].len() ==> #[trigger] rows[r][c] <= 9,
            decreases self.peaks.len() - k,
        {
            let row = &self.peaks[k];
            if row.len() != width {
                assert(rows[k as int].len() != rows[0].len());
                return false;
            }
            let mut c: usize = 0;
            while c < row.len()
                invariant
                    c <= row.len(),
                    k < self.peaks.len(),
                    rows == self.rows(),
                    row@ == rows[k as int],
                    forall|t: int| 0 <= t < c ==> #[trigger] row@[t] <= 9,
                decreases row.len() - c,
            {
                if row[c] > 9 {
                    assert(rows[k as int][c as int] > 9);
                    return false;
                }
                c += 1;
            }
            k += 1;
        }
        true
    }

    /// The sum of the scores of all trailheads: for each cell of height 0,
    /// how many peaks its trails reach.
    pub fn find_total_trails(&self) -> (total: Result<u64, InputError>)
        requires
            self.wf(),
        ensures
            total == answer_of(self.rows(), total_score(self.rows())),
    {
        let ghost rows = self.rows();
        let ghost weight = |r: int, c: int| score(rows, r, c);
        let mut total: u64 = 0;
        let mut i: usize = 0;
        while i < self.peaks.len()
            invariant
                self.wf(),
                i <= self.peaks.len(),
                rows == self.rows(),
                weight == (|r: int, c: int| score(rows, r, c)),
                total == sum_rows(rows, weight, i as int),
            decreases self.peaks.len() - i,
        {
            let row = &self.peaks[i];
            let mut j: usize = 0;
            assert(rows[i as int].len() == rows[0].len());
            while j < row.len()
                invariant
                    self.wf(),
                    i < self.peaks.len(),
                    j <= row.len(),
                    row@ == rows[i as int],
                    rows == self.rows(),
                    weight == (|r: int, c: int| score(rows, r, c)),
                    total == sum_rows(rows, weight, i as int) + sum_cells(
                        weight,
                        i as int,
                        j as int,
                    ),
                decreases row.len() - j,
            {
                let here: u64 = if row[j] == 0 {
                    let ends = self.find_reachable_peaks((i as i64, j as i64));
                    Self::count_distinct(&ends) as u64
                } else {
                    0
                };
                assert(weight(i as int, j as int) == here);
                proof {
                    lemma_partial_sum_bounded(rows, weight, i as int, j + 1);
                }
                if here > u64::MAX - total {
                    return Err(InputError::TooLarge);
                }
                total = total + here;
                j += 1;
            }
            i += 1;
        }
        Ok(total)
    }

    /// How many different positions `ends` holds.
    fn count_distinct(ends: &Vec<(i64, i64)>) -> (distinct: usize)
        ensures
            distinct == spots(ends@).to_set().len(),
    {
        let mut seen = PositionSet::new();
        let mut k: usize = 0;
        assert(spots(ends@).take(0).to_set() =~= Set::<(int, int)>::empty());
        while k < ends.len()
            invariant
                k <= ends.len(),
                seen.wf(),
                seen@ == spots(ends@).take(k as int).to_set(),
            decreases ends.len() - k,
        {
            proof {
                seen.lemma_finite();
                spots(ends@).take(k as int).lemma_cardinality_of_set();
                assert(spots(ends@).take(k + 1).to_set() =~= spots(ends@).take(
                    k as int,
                ).to_set().insert(as_cell(ends@[k as int]))) by {
                    let longer = spots(ends@).take(k + 1);
                    let shorter = spots(ends@).take(k as int);
                    assert(longer.drop_last() =~= shorter);
                    assert(longer.last() == as_cell(ends@[k as int]));
                    assert forall|cell: (int, int)|
                        longer.to_set().contains(cell) implies shorter.to_set().insert(
                        as_cell(ends@[k as int]),
                    ).contains(cell) by {
                        let t = choose|t: int| 0 <= t < longer.len() && longer[t] == cell;
                        if t < k {
                            assert(shorter[t] == cell);
                        }
                    }
                    assert forall|cell: (int, int)|
                        shorter.to_set().insert(as_cell(ends@[k as int])).contains(
                            cell,
                        ) implies longer.to_set().contains(cell) by {
                        if cell == as_cell(ends@[k as int]) {
                            assert(longer[k as int] == cell);
                        } else {
                            let t = choose|t: int| 0 <= t < shorter.len() && shorter[t] == cell;
                            assert(longer[t] == cell);
                        }
                    }
                }
            }
            seen.insert(ends[k]);
            k += 1;
        }
        assert(spots(ends@).take(k as int) =~= spots(ends@));
        seen.len()
    }

    /// The sum of the ratings of all trailheads: for each cell of height 0,
    /// how many trails start on it.
    pub fn find_total_distinct_trails(&self) -> (total: Result<u64, InputError>)
        requires
            self.wf(),
        ensures
            total == answer_of(self.rows(), total_rating(self.rows())),
    {
        let ghost rows = self.rows();
        let ghost weight = |r: int, c: int| rating(rows, r, c);
        let mut total: u64 = 0;
        let mut i: usize = 0;
        while i < self.peaks.len()
            invariant
                self.wf(),
                i <= self.peaks.len(),
                rows == self.rows(),
                weight == (|r: int, c: int| rating(rows, r, c)),
                total == sum_rows(rows, weight, i as int),
            decreases self.peaks.len() - i,
        {
            let row = &self.peaks[i];
            let mut j: usize = 0;
            assert(rows[i as int].len() == rows[0].len());
            while j < row.len()
                invariant
                    self.wf(),
                    i < self.peaks.len(),
                    j <= row.len(),
                    row@ == rows[i as int],
                    rows == self.rows(),
                    weight == (|r: int, c: int| rating(rows, r, c)),
                    total == sum_rows(rows, weight, i as int) + sum_cells(
                        weight,
                        i as int,
                        j as int,
                    ),
                decreases row.len() - j,
            {
                let here: u64 = if row[j] == 0 {
                    self.find_reachable_peaks((i as i64, j as i64)).len() as u64
                } else {
                    0
                };
                assert(weight(i as int, j as int) == here);
                proof {
                    lemma_partial_sum_bounded(rows, weight, i as int, j + 1);
                }
                if here > u64::MAX - total {
                    return Err(InputError::TooLarge);
                }
                total = total + here;
                j += 1;
            }
            i += 1;
        }
        Ok(total)
    }

    /// The end of every trail that goes on from `position` up to height 9,
    /// once for each trail.
    pub fn find_reachable_peaks(&self, position: (i64, i64)) -> (ends: Vec<(i64, i64)>)
        requires
            self.wf(),
            height(self.rows(), position.0 as int, position.1 as int) is Some,
        ensures
            spots(ends@) == trail_ends(self.rows(), position.0 as int, position.1 as int),
        decreases 256 - self.rows()[position.0 as int][position.1 as int],
    {
        let (i, j) = position;
        let ghost rows = self.rows();
        proof {
            assert(rows[i as int].len() == rows[0].len());
            assert(self.peaks.len() == rows.len());
            assert(self.peaks@[0].len() == rows[0].len());
            assert(rows[i as int][j as int] <= 9);
        }
        let curr_elevation = self.peaks[i as usize][j as usize];
        if curr_elevation == 9 {
            let ends = vec![(i, j)];
            assert(spots(ends@) =~= seq![(i as int, j as int)]);
            return ends;
        }
        let mut ends: Vec<(i64, i64)> = Vec::new();
        let ghost mut so_far: Seq<(int, int)> = Seq::empty();
        assert(spots(ends@) =~= so_far);
        if self.is_in_mountain((i - 1, j)) && self.peaks[(i - 1) as usize][j as usize]
            == curr_elevation + 1 {
            let mut more = self.find_reachable_peaks((i - 1, j));
            let ghost added = spots(more@);
            ends.append(&mut more);
            assert(spots(ends@) =~= so_far + added);
        }
        proof {
            so_far = so_far + climbs(rows, i as int, j as int, i - 1, j as int);
            assert(spots(ends@) =~= so_far);
        }
        if self.is_in_mountain((i, j - 1)) && self.peaks[i as usize][(j - 1) as usize]
            == curr_elevation + 1 {
            let mut more = self.find_reachable_peaks((i, j - 1));
            let ghost added = spots(more@);
            ends.append(&mut more);
            assert(spots(ends@) =~= so_far + added);
        }
        proof {
            so_far = so_far + climbs(rows, i as int, j as int, i as int, j - 1);
            assert(spots(ends@) =~= so_far);
        }
        if self.is_in_mountain((i, j + 1)) && self.peaks[i as usize][(j + 1) as usize]
            == curr_elevation + 1 {
            let mut more = self.find_reachable_peaks((i, j + 1));
            let ghost added = spots(more@);
            ends.append(&mut more);
            assert(spots(ends@) =~= so_far + added);
        }
        proof {
            so_far = so_far + climbs(rows, i as int, j as int, i as int, j + 1);
            assert(spots(ends@) =~= so_far);
        }
        if self.is_in_mountain((i + 1, j)) && self.peaks[(i + 1) as usize][j as usize]
            == curr_elevation + 1 {
            let mut more = self.find_reachable_peaks((i + 1, j));
            let ghost added = spots(more@);
            ends.append(&mut more);
            assert(spots(ends@) =~= so_far + added);
        }
        proof {
            so_far = so_far + climbs(rows, i as int, j as int, i + 1, j as int);
            assert(spots(ends@) =~= so_far);
        }
        ends
    }

    /// Whether `position` names a cell of the map.
    pub fn is_in_mountain(&self, position: (i64, i64)) -> (inside: bool)
        requires
            self.wf(),
        ensures
            inside == (height(self.rows(), position.0 as int, position.1 as int) is Some),
    {
        let (i, j) = position;
        proof {
            if 0 <= i < self.rows().len() {
                assert(self.rows()[i as int].len() == self.rows()[0].len());
            }
        }
        if self.peaks.len() == 0 {
            return false;
        }
        0 <= i && i < self.peaks.len() as i64 && 0 <= j && j < self.peaks[0].len() as i64
    }
}

/// The sum of the scores of all trailheads of the map that `input` draws.
pub fn find_total_trailheads(input: &str) -> (total: Result<u64, InputError>)
    ensures
        total == answer_of(map_of(lines_of(input@)), total_score(map_of(lines_of(input@)))),
{
    let mountain = Mountain::from_text(input);
    if !mountain.is_even() {
        return Err(InputError::Malformed);
    }
    mountain.find_total_trails()
}

/// The sum of the ratings of all trailheads of the map that `input` draws.
pub fn find_total_distinct_trailheads(input: &str) -> (total: Result<u64, InputError>)
    ensures
        total == answer_of(map_of(lines_of(input@)), total_rating(map_of(lines_of(input@)))),
{
    let mountain = Mountain::from_text(input);
    if !mountain.is_even() {
        return Err(InputError::Malformed);
    }
    mountain.find_total_distinct_trails()
}

} // verus!
