//! How a block of text draws the lattice and places the guard on it.

use vstd::prelude::*;
use crate::day_6::model::{rectangular, width_of, Pose};
use crate::grid::reads_first;
use crate::day_6::Orientation;

verus! {

/// Why a text draws no patrol.
#[derive(Clone, Copy, Debug, PartialEq, Eq)]
pub enum MapError {
    /// No character of the text is one of `^`, `>`, `v`, `<`.
    NoGuard,
    /// The lines of the text are not all of one length.
    UnevenRows,
    /// The grid has more rows, columns or cells than a position can name.
    TooLarge,
}

/// The orientation that a guard glyph stands for.
pub open spec fn glyph_facing(c: char) -> Option<Orientation> {
    if c == '^' {
        Some(Orientation::North)
    } else if c == '>' {
        Some(Orientation::East)
    } else if c == 'v' {
        Some(Orientation::South)
    } else if c == '<' {
        Some(Orientation::West)
    } else {
        None
    }
}

/// The rows hold a guard glyph on `cell`.
pub open spec fn guard_at(rows: Seq<Seq<char>>, cell: (int, int)) -> bool {
    &&& 0 <= cell.0 < rows.len()
    &&& 0 <= cell.1 < rows[cell.0].len()
    &&& glyph_facing(rows[cell.0][cell.1]) is Some
}

/// The rows hold a guard glyph on `cell` and none before it in reading order.
pub open spec fn first_guard_at(rows: Seq<Seq<char>>, cell: (int, int)) -> bool {
    &&& guard_at(rows, cell)
    &&& forall|other: (int, int)| #[trigger] guard_at(rows, other) ==> reads_first(cell, other)
}

/// The rows hold a guard glyph.
pub open spec fn has_guard(rows: Seq<Seq<char>>) -> bool {
    exists|cell: (int, int)| guard_at(rows, cell)
}

/// The cell of the first guard glyph in reading order.
pub open spec fn guard_cell(rows: Seq<Seq<char>>) -> (int, int) {
    choose|cell: (int, int)| first_guard_at(rows, cell)
}

/// The pose the patrol starts from: on the first guard glyph, facing as it says.
pub open spec fn start_of(rows: Seq<Seq<char>>) -> Pose {
    let cell = guard_cell(rows);
    Pose { cell, facing: glyph_facing(rows[cell.0][cell.1])->0 }
}

/// Positions can name every row, column and cell of the grid.
pub open spec fn fits(rows: Seq<Seq<char>>) -> bool {
    &&& rows.len() <= i64::MAX
    &&& width_of(rows) <= i64::MAX
    &&& rows.len() * width_of(rows) <= usize::MAX
}

/// What is wrong with the rows as a drawing of a patrol, if anything: a
/// missing guard is reported before uneven rows, and those before the size.
pub open spec fn map_fault(rows: Seq<Seq<char>>) -> Option<MapError> {
    if !has_guard(rows) {
        Some(MapError::NoGuard)
    } else if !rectangular(rows) {
        Some(MapError::UnevenRows)
    } else if !fits(rows) {
        Some(MapError::TooLarge)
    } else {
        None
    }
}

/// The first guard glyph is at one cell only.
pub proof fn lemma_guard_cell_is(rows: Seq<Seq<char>>, cell: (int, int))
    requires
        first_guard_at(rows, cell),
    ensures
        has_guard(rows),
        guard_cell(rows) == cell,
{
    let chosen = guard_cell(rows);
    assert(first_guard_at(rows, chosen));
    assert(reads_first(cell, chosen));
    assert(reads_first(chosen, cell));
}

} // verus!
