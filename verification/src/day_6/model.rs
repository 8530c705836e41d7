//! The mathematical model of the patrol: cells, poses, the arena, the
//! cell-by-cell walk and the walk by jumps from obstruction to obstruction.

use vstd::prelude::*;
use crate::day_6::Orientation;

verus! {

/// The cell `d` cells away from `cell` in the direction `facing`.
pub open spec fn shift(cell: (int, int), facing: Orientation, d: int) -> (int, int) {
    match facing {
        Orientation::North => (cell.0 - d, cell.1),
        Orientation::East => (cell.0, cell.1 + d),
        Orientation::South => (cell.0 + d, cell.1),
        Orientation::West => (cell.0, cell.1 - d),
    }
}

/// Where the guard stands and which way it faces.
pub struct Pose {
    pub cell: (int, int),
    pub facing: Orientation,
}

impl Pose {
    /// The cell directly in front of the guard.
    pub open spec fn ahead(self) -> (int, int) {
        shift(self.cell, self.facing, 1)
    }

    /// The pose after one step forward.
    pub open spec fn advanced(self) -> Pose {
        Pose { cell: self.ahead(), facing: self.facing }
    }

    /// The pose after a quarter turn clockwise on the spot.
    pub open spec fn turned(self) -> Pose {
        Pose { cell: self.cell, facing: self.facing.spec_turn_right() }
    }
}

/// A bounded lattice with its obstructed cells.
pub struct Arena {
    pub height: int,
    pub width: int,
    pub walls: Set<(int, int)>,
}

impl Arena {
    /// Whether `cell` lies inside the lattice.
    pub open spec fn contains(self, cell: (int, int)) -> bool {
        0 <= cell.0 < self.height && 0 <= cell.1 < self.width
    }

    /// Every obstruction lies inside the lattice.
    pub open spec fn enclosed(self) -> bool {
        forall|cell: (int, int)| #[trigger] self.walls.contains(cell) ==> self.contains(cell)
    }

    /// The same lattice with one more obstruction.
    pub open spec fn with_wall(self, cell: (int, int)) -> Arena {
        Arena { height: self.height, width: self.width, walls: self.walls.insert(cell) }
    }

    /// One move of the patrol: leave the lattice (`None`), turn right in front
    /// of an obstruction, or advance one cell.
    pub open spec fn step(self, pose: Pose) -> Option<Pose> {
        if !self.contains(pose.ahead()) {
            None
        } else if self.walls.contains(pose.ahead()) {
            Some(pose.turned())
        } else {
            Some(pose.advanced())
        }
    }

    /// The pose after `n` moves from `start`, or `None` once the guard has left.
    pub open spec fn after(self, start: Pose, n: nat) -> Option<Pose>
        decreases n,
    {
        if n == 0 {
            Some(start)
        } else {
            match self.after(start, (n - 1) as nat) {
                Some(pose) => self.step(pose),
                None => None,
            }
        }
    }

    /// After exactly `n` moves from `start` the guard stands on `cell`.
    pub open spec fn stands_on(self, start: Pose, n: nat, cell: (int, int)) -> bool {
        self.after(start, n) matches Some(pose) && pose.cell == cell
    }

    /// The patrol from `start` passes over `cell` at some time.
    pub open spec fn visits(self, start: Pose, cell: (int, int)) -> bool {
        exists|n: nat| self.stands_on(start, n, cell)
    }

    /// Every cell the patrol from `start` passes over.
    pub open spec fn visited(self, start: Pose) -> Set<(int, int)> {
        Set::new(|cell: (int, int)| self.visits(start, cell))
    }

    /// The cells the patrol from `start` stands on before its `n`-th move is
    /// complete: at the times `0` to `n - 1`.
    pub open spec fn trail(self, start: Pose, n: nat) -> Set<(int, int)> {
        Set::new(|cell: (int, int)| exists|m: nat| m < n && self.stands_on(start, m, cell))
    }

    /// The guard has left the lattice after at most `n` moves.
    pub open spec fn gone_after(self, start: Pose, n: nat) -> bool {
        self.after(start, n) is None
    }

    /// The patrol from `start` leaves the lattice at some time.
    pub open spec fn exits(self, start: Pose) -> bool {
        exists|n: nat| self.gone_after(start, n)
    }

    /// An obstruction added on `cell` traps the patrol from `start`: the cell
    /// lies on the route of the patrol, is not the starting cell, and with
    /// it obstructed the guard never leaves the lattice.
    pub open spec fn traps(self, start: Pose, cell: (int, int)) -> bool {
        &&& self.visits(start, cell)
        &&& cell != start.cell
        &&& !self.with_wall(cell).exits(start)
    }

    /// Every cell whose obstruction would trap the patrol from `start`.
    pub open spec fn trap_cells(self, start: Pose) -> Set<(int, int)> {
        Set::new(|cell: (int, int)| self.traps(start, cell))
    }
}

/// Whether the text rows mark `cell` as obstructed.
pub open spec fn obstructed(rows: Seq<Seq<char>>, cell: (int, int)) -> bool {
    &&& 0 <= cell.0 < rows.len()
    &&& 0 <= cell.1 < rows[cell.0].len()
    &&& rows[cell.0][cell.1] == '#'
}

/// All rows are as long as the first.
pub open spec fn rectangular(rows: Seq<Seq<char>>) -> bool {
    forall|r: int| 0 <= r < rows.len() ==> (#[trigger] rows[r]).len() == rows[0].len()
}

/// The number of columns: the length of the first row.
pub open spec fn width_of(rows: Seq<Seq<char>>) -> int {
    if rows.len() == 0 {
        0
    } else {
        rows[0].len() as int
    }
}

/// The lattice that the text rows draw: one cell for each character of a
/// rectangular block, obstructed where the character is `#`.
pub open spec fn arena_of(rows: Seq<Seq<char>>) -> Arena {
    Arena {
        height: rows.len() as int,
        width: width_of(rows),
        walls: Set::new(|cell: (int, int)| obstructed(rows, cell)),
    }
}

/// There is an obstruction exactly `d >= 1` cells ahead of `pose`.
pub open spec fn wall_at(walls: Set<(int, int)>, pose: Pose, d: int) -> bool {
    d >= 1 && walls.contains(shift(pose.cell, pose.facing, d))
}

/// Some obstruction lies ahead of `pose` on its line.
pub open spec fn blocked(walls: Set<(int, int)>, pose: Pose) -> bool {
    exists|d: int| wall_at(walls, pose, d)
}

/// The nearest obstruction ahead of `pose` is exactly `d` cells away.
pub open spec fn first_wall_at(walls: Set<(int, int)>, pose: Pose, d: int) -> bool {
    &&& wall_at(walls, pose, d)
    &&& forall|k: int| 1 <= k < d ==> !wall_at(walls, pose, k)
}

/// The distance to the nearest obstruction ahead of a blocked pose.
pub open spec fn wall_distance(walls: Set<(int, int)>, pose: Pose) -> int {
    choose|d: int| first_wall_at(walls, pose, d)
}

/// The cell just short of the nearest obstruction ahead of a blocked pose.
pub open spec fn stop_cell(walls: Set<(int, int)>, pose: Pose) -> (int, int) {
    shift(pose.cell, pose.facing, wall_distance(walls, pose) - 1)
}

/// One jump: run to the cell just short of the nearest obstruction ahead and
/// turn right there, or leave (`None`) when nothing is ahead.
pub open spec fn jump(walls: Set<(int, int)>, pose: Pose) -> Option<Pose> {
    if blocked(walls, pose) {
        Some(Pose { cell: stop_cell(walls, pose), facing: pose.facing.spec_turn_right() })
    } else {
        None
    }
}

/// The pose after `n` jumps from `start`, or `None` once a jump found nothing ahead.
pub open spec fn after_jumps(walls: Set<(int, int)>, start: Pose, n: nat) -> Option<Pose>
    decreases n,
{
    if n == 0 {
        Some(start)
    } else {
        match after_jumps(walls, start, (n - 1) as nat) {
            Some(pose) => jump(walls, pose),
            None => None,
        }
    }
}

/// The guard has run free after at most `n` jumps.
pub open spec fn free_after(walls: Set<(int, int)>, start: Pose, n: nat) -> bool {
    after_jumps(walls, start, n) is None
}

/// Jumping from `start`, the guard at some time finds nothing ahead.
pub open spec fn escapes(walls: Set<(int, int)>, start: Pose) -> bool {
    exists|n: nat| free_after(walls, start, n)
}

} // verus!
