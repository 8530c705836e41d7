//! A guard patrolling a bounded grid: which cells the patrol visits, and
//! which single added obstruction would trap the guard in a loop.

use vstd::prelude::*;
use crate::cells::{as_cell, LineIndex, PositionSet};
use crate::day_6::counting::lemma_cells_bounded;
use crate::day_6::index::PoseSet;
use crate::day_6::jumps::{
    lemma_jump_repeat_never_escapes, lemma_jumps_agree_with_walk, lemma_landing_has_stopper,
    lemma_landings_bounded, lemma_wall_distance_is, stopper,
};
use crate::day_6::layout::{
    first_guard_at, fits, glyph_facing, guard_at, has_guard, lemma_guard_cell_is, map_fault,
    start_of, MapError,
};
use crate::day_6::model::{
    after_jumps, arena_of, blocked, escapes, first_wall_at, free_after, jump, obstructed,
    rectangular, shift, wall_at, Arena, Pose,
};
use crate::day_6::walk::{
    lemma_exits_from_later, lemma_long_walk_repeats, lemma_new_wall_keeps_past,
    lemma_stays_inside, lemma_trail_complete_at_exit, lemma_trail_complete_at_repeat,
    lemma_trail_empty, lemma_trail_grows, lemma_trail_inside, repeats_at,
};
use crate::text::{chars_of, lines_of, rows_of, split_lines};

pub mod counting;
pub mod index;
pub mod jumps;
pub mod layout;
pub mod model;
pub mod walk;

verus! {

/// One of the four directions the guard can face.
#[derive(Clone, Copy, Debug, PartialEq, Eq, Hash, Structural)]
pub enum Orientation {
    North,
    East,
    South,
    West,
}

impl Orientation {
    /// The orientation after a quarter turn clockwise.
    pub open spec fn spec_turn_right(&self) -> Orientation {
        match *self {
            Orientation::North => Orientation::East,
            Orientation::East => Orientation::South,
            Orientation::South => Orientation::West,
            Orientation::West => Orientation::North,
        }
    }

    /// The orientation that a guard glyph stands for: `^`, `>`, `v` or `<`.
    pub fn from_glyph(c: char) -> (facing: Option<Self>)
        ensures
            facing == glyph_facing(c),
    {
        if c == '^' {
            Some(Self::North)
        } else if c == '>' {
            Some(Self::East)
        } else if c == 'v' {
            Some(Self::South)
        } else if c == '<' {
            Some(Self::West)
        } else {
            None
        }
    }

    #[verifier::when_used_as_spec(spec_turn_right)]
    pub fn turn_right(&self) -> (turned: Self)
        ensures
            turned == self.spec_turn_right(),
    {
        match self {
            Self::North => Self::East,
            Self::East => Self::South,
            Self::South => Self::West,
            Self::West => Self::North,
        }
    }
}

/// Four quarter turns bring every orientation back to itself.
pub proof fn lemma_four_turns_close(o: Orientation)
    ensures
        o.turn_right().turn_right().turn_right().turn_right() == o,
{
}

/// The guard: where it stands and which way it faces.
#[derive(Clone, Copy, Debug, PartialEq, Eq, Hash)]
pub struct Guard {
    pub position: (i64, i64),
    pub orientation: Orientation,
}

impl View for Guard {
    type V = Pose;

    open spec fn view(&self) -> Pose {
        Pose { cell: as_cell(self.position), facing: self.orientation }
    }
}

impl Guard {
    /// The cell ahead of the guard can be named by machine integers.
    pub open spec fn can_advance(&self) -> bool {
        &&& i64::MIN <= self@.ahead().0 <= i64::MAX
        &&& i64::MIN <= self@.ahead().1 <= i64::MAX
    }

    pub fn new(position: (i64, i64), orientation: Orientation) -> (guard: Self)
        ensures
            guard.position == position,
            guard.orientation == orientation,
    {
        Self { position, orientation }
    }

    pub fn get_position(&self) -> (position: (i64, i64))
        ensures
            position == self.position,
    {
        self.position
    }

    /// The position one cell ahead; the guard does not move.
    pub fn get_next_position(&self) -> (next: (i64, i64))
        requires
            self.can_advance(),
        ensures
            as_cell(next) == self@.ahead(),
    {
        match self.orientation {
            Orientation::North => (self.position.0 - 1, self.position.1),
            Orientation::East => (self.position.0, self.position.1 + 1),
            Orientation::South => (self.position.0 + 1, self.position.1),
            Orientation::West => (self.position.0, self.position.1 - 1),
        }
    }

    /// Moves the guard one cell ahead, whatever is there.
    pub fn advance(&mut self)
        requires
            old(self).can_advance(),
        ensures
            final(self)@ == old(self)@.advanced(),
    {
        match self.orientation {
            Orientation::North => self.position.0 -= 1,
            Orientation::East => self.position.1 += 1,
            Orientation::South => self.position.0 += 1,
            Orientation::West => self.position.1 -= 1,
        }
    }

    /// Puts the guard on `position`; it keeps facing the same way.
    pub fn set_position(&mut self, position: (i64, i64))
        ensures
            final(self).position == position,
            final(self).orientation == old(self).orientation,
    {
        self.position = position;
    }

    /// Turns the guard a quarter turn clockwise on the spot.
    pub fn turn_right(&mut self)
        ensures
            final(self)@ == old(self)@.turned(),
    {
        self.orientation = self.orientation.turn_right();
    }
}

/// How many cells lie between two positions of one row or one column,
/// the second counted in.
pub open spec fn gap_between(from: (i64, i64), to: (i64, i64)) -> int {
    if from.0 == to.0 {
        if from.1 <= to.1 {
            to.1 - from.1
        } else {
            from.1 - to.1
        }
    } else if from.0 <= to.0 {
        to.0 - from.0
    } else {
        from.0 - to.0
    }
}

/// The obstructed cells that come before row `row`, column `col` in reading
/// order.
pub open spec fn marked_before(rows: Seq<Seq<char>>, row: int, col: int) -> Set<(int, int)> {
    Set::new(
        |cell: (int, int)|
            obstructed(rows, cell) && (cell.0 < row || (cell.0 == row && cell.1 < col)),
    )
}

/// The obstructions, indexed by column and by row, so that the nearest one
/// ahead of the guard is found on the guard's own line.
pub struct Walls {
    vertical: LineIndex,
    horizontal: LineIndex,
}

impl View for Walls {
    type V = Set<(int, int)>;

    closed spec fn view(&self) -> Set<(int, int)> {
        self.horizontal@
    }
}

impl Walls {
    /// Both indexes hold the same cells: by column what the other holds by row.
    pub closed spec fn wf(&self) -> bool {
        &&& self.vertical.wf()
        &&& self.horizontal.wf()
        &&& forall|row: int, col: int| #[trigger]
            self.horizontal@.contains((row, col)) <==> self.vertical@.contains((col, row))
    }

    /// A well-formed index holds finitely many obstructions.
    pub proof fn lemma_finite(&self)
        requires
            self.wf(),
        ensures
            self@.finite(),
    {
        self.horizontal.lemma_wf_facts();
    }

    pub fn new() -> (walls: Self)
        ensures
            walls.wf(),
            walls@ == Set::<(int, int)>::empty(),
    {
        Self { vertical: LineIndex::new(), horizontal: LineIndex::new() }
    }

    /// The obstructions that the grid of `map` marks.
    pub fn from_map(map: &NorthPoleMap) -> (walls: Self)
        requires
            map.wf(),
        ensures
            walls.wf(),
            walls@ == map.arena().walls,
    {
        let mut walls = Self::new();
        let mut i: usize = 0;
        assert(walls@ =~= marked_before(map.rows(), 0, 0));
        while i < map.grid.len()
            invariant
                map.wf(),
                walls.wf(),
                i <= map.grid.len(),
                walls@ == marked_before(map.rows(), i as int, 0),
            decreases map.grid.len() - i,
        {
            let row = &map.grid[i];
            let mut j: usize = 0;
            assert(map.rows()[i as int].len() == map.rows()[0].len());
            while j < row.len()
                invariant
                    map.wf(),
                    walls.wf(),
                    i < map.grid.len(),
                    row@ == map.rows()[i as int],
                    row@.len() <= i64::MAX,
                    j <= row.len(),
                    walls@ == marked_before(map.rows(), i as int, j as int),
                decreases row.len() - j,
            {
                if row[j] == '#' {
                    walls.insert((i as i64, j as i64));
                }
                j += 1;
                assert(walls@ =~= marked_before(map.rows(), i as int, j as int));
            }
            i += 1;
            assert(walls@ =~= marked_before(map.rows(), i as int, 0));
        }
        assert(walls@ =~= map.arena().walls);
        walls
    }

    /// The cell one short of the nearest obstruction ahead of the guard on
    /// its line, or `None` when no obstruction is ahead.
    pub fn get_position_before_next_wall(&self, guard: &Guard) -> (stop: Option<(i64, i64)>)
        requires
            self.wf(),
        ensures
            stop is None <==> !blocked(self@, guard@),
            stop matches Some(position) ==> jump(self@, guard@) == Some(
                Pose { cell: as_cell(position), facing: guard.orientation.spec_turn_right() },
            ),
            stop matches Some(position) ==> {
                let gap = gap_between(guard.position, position);
                &&& as_cell(position) == shift(guard@.cell, guard@.facing, gap)
                &&& self@.contains(shift(guard@.cell, guard@.facing, gap + 1))
                &&& forall|k: int|
                    1 <= k <= gap ==> !self@.contains(#[trigger] shift(guard@.cell, guard@.facing, k))
            },
    {
        let position = guard.get_position();
        let ghost pose = guard@;
        let stop = match guard.orientation {
            Orientation::North => {
                match self.vertical.nearest_below(position.1, position.0) {
                    Some(wall) => Some((wall + 1, position.1)),
                    None => None,
                }
            },
            Orientation::East => {
                match self.horizontal.nearest_above(position.0, position.1) {
                    Some(wall) => Some((position.0, wall - 1)),
                    None => None,
                }
            },
            Orientation::South => {
                match self.vertical.nearest_above(position.1, position.0) {
                    Some(wall) => Some((wall - 1, position.1)),
                    None => None,
                }
            },
            Orientation::West => {
                match self.horizontal.nearest_below(position.0, position.1) {
                    Some(wall) => Some((position.0, wall + 1)),
                    None => None,
                }
            },
        };
        proof {
            match stop {
                Some(reached) => {
                    let d = match guard.orientation {
                        Orientation::North => position.0 - reached.0 + 1,
                        Orientation::East => reached.1 - position.1 + 1,
                        Orientation::South => reached.0 - position.0 + 1,
                        Orientation::West => position.1 - reached.1 + 1,
                    };
                    let wall = shift(pose.cell, pose.facing, d);
                    assert(self.horizontal@.contains((wall.0, wall.1)) <==> self.vertical@.contains(
                        (wall.1, wall.0),
                    ));
                    assert(wall_at(self@, pose, d));
                    assert forall|k: int| 1 <= k < d implies !wall_at(self@, pose, k) by {
                        let between = shift(pose.cell, pose.facing, k);
                        assert(self.horizontal@.contains((between.0, between.1))
                            <==> self.vertical@.contains((between.1, between.0)));
                    }
                    assert(first_wall_at(self@, pose, d));
                    lemma_wall_distance_is(self@, pose, d);
                },
                None => {
                    assert forall|d: int| !wall_at(self@, pose, d) by {
                        let there = shift(pose.cell, pose.facing, d);
                        assert(self.horizontal@.contains((there.0, there.1))
                            <==> self.vertical@.contains((there.1, there.0)));
                    }
                },
            }
        }
        stop
    }

    /// Adds an obstruction on `wall`.
    pub fn insert(&mut self, wall: (i64, i64))
        requires
            old(self).wf(),
        ensures
            final(self).wf(),
            final(self)@ == old(self)@.insert(as_cell(wall)),
    {
        self.vertical.insert(wall.1, wall.0);
        self.horizontal.insert(wall.0, wall.1);
        proof {
            assert forall|row: int, col: int| #[trigger]
                self.horizontal@.contains((row, col)) <==> self.vertical@.contains(
                    (col, row),
                ) by {
                assert(old(self).horizontal@.contains((row, col)) <==> old(
                    self,
                ).vertical@.contains((col, row)));
            }
        }
    }

    /// Takes the obstruction off `wall`; nothing happens where there is none.
    pub fn remove(&mut self, wall: (i64, i64))
        requires
            old(self).wf(),
        ensures
            final(self).wf(),
            final(self)@ == old(self)@.remove(as_cell(wall)),
    {
        self.vertical.remove(wall.1, wall.0);
        self.horizontal.remove(wall.0, wall.1);
        proof {
            assert forall|row: int, col: int| #[trigger]
                self.horizontal@.contains((row, col)) <==> self.vertical@.contains(
                    (col, row),
                ) by {
                assert(old(self).horizontal@.contains((row, col)) <==> old(
                    self,
                ).vertical@.contains((col, row)));
            }
        }
    }
}

/// The trapping cells among those the patrol stands on before its `n`-th
/// move is complete.
pub open spec fn trapped_on(arena: Arena, start: Pose, n: nat) -> Set<(int, int)> {
    Set::new(|cell: (int, int)| arena.trail(start, n).contains(cell) && arena.traps(start, cell))
}

/// The lattice as read from the text, and the guard on it.
pub struct NorthPoleMap {
    pub grid: Vec<Vec<char>>,
    pub guard: Guard,
}

impl NorthPoleMap {
    /// The rows of characters of the grid.
    pub open spec fn rows(&self) -> Seq<Seq<char>> {
        rows_of(self.grid)
    }

    /// The lattice that the grid draws.
    pub open spec fn arena(&self) -> Arena {
        arena_of(self.rows())
    }

    /// The grid is a rectangle whose cells machine integers can name and
    /// count, and the guard stands inside it.
    pub open spec fn wf(&self) -> bool {
        &&& rectangular(self.rows())
        &&& self.arena().contains(self.guard@.cell)
        &&& self.arena().height <= i64::MAX
        &&& self.arena().width <= i64::MAX
        &&& self.arena().height * self.arena().width <= usize::MAX
    }

    pub fn new(grid: Vec<Vec<char>>, guard: Guard) -> (map: Self)
        ensures
            map.grid == grid,
            map.guard == guard,
    {
        Self { grid, guard }
    }

    /// Reads the grid and the guard from `input`: one row for each line, the
    /// guard on the first of the characters `^`, `>`, `v`, `<` in reading order.
    pub fn from_text(input: &str) -> (parsed: Result<Self, MapError>)
        ensures
            match parsed {
                Ok(map) => {
                    &&& map_fault(lines_of(input@)) is None
                    &&& map.rows() == lines_of(input@)
                    &&& map.guard@ == start_of(lines_of(input@))
                    &&& map.wf()
                },
                Err(fault) => map_fault(lines_of(input@)) == Some(fault),
            },
    {
        let chars = chars_of(input);
        let grid = split_lines(&chars);
        let ghost rows = rows_of(grid);
        let mut found: Option<(usize, usize, Orientation)> = None;
        let mut i: usize = 0;
        while i < grid.len() && found.is_none()
            invariant
                i <= grid.len(),
                rows == rows_of(grid),
                found is None ==> forall|cell: (int, int)| #[trigger]
                    guard_at(rows, cell) ==> cell.0 >= i,
                found matches Some(at) ==> first_guard_at(rows, (at.0 as int, at.1 as int))
                    && glyph_facing(rows[at.0 as int][at.1 as int]) == Some(at.2),
            decreases grid.len() - i,
        {
            let row = &grid[i];
            let mut j: usize = 0;
            while j < row.len() && found.is_none()
                invariant
                    i < grid.len(),
                    j <= row.len(),
                    rows == rows_of(grid),
                    row@ == rows[i as int],
                    found is None ==> forall|cell: (int, int)| #[trigger]
                        guard_at(rows, cell) ==> cell.0 > i || (cell.0 == i && cell.1 >= j),
                    found matches Some(at) ==> first_guard_at(rows, (at.0 as int, at.1 as int))
                        && glyph_facing(rows[at.0 as int][at.1 as int]) == Some(at.2),
                decreases row.len() - j,
            {
                match Orientation::from_glyph(row[j]) {
                    Some(orientation) => {
                        found = Some((i, j, orientation));
                    },
                    None => {},
                }
                j += 1;
            }
            i += 1;
        }
        let (row, col, orientation) = match found {
            Some(at) => at,
            None => {
                return Err(MapError::NoGuard);
            },
        };
        proof {
            lemma_guard_cell_is(rows, (row as int, col as int));
        }
        let width = grid[0].len();
        let mut k: usize = 0;
        while k < grid.len()
            invariant
                k <= grid.len(),
                rows == rows_of(grid),
                rows == lines_of(input@),
                has_guard(rows),
                grid@.len() > 0,
                width == rows[0].len(),
                forall|r: int| 0 <= r < k ==> (#[trigger] rows[r]).len() == width,
            decreases grid.len() - k,
        {
            if grid[k].len() != width {
                assert(rows[k as int].len() != rows[0].len());
                return Err(MapError::UnevenRows);
            }
            k += 1;
        }
        assert((grid.len() as u128) * (width as u128) <= u128::MAX) by (nonlinear_arith)
            requires
                grid.len() <= 0xffff_ffff_ffff_ffff,
                width <= 0xffff_ffff_ffff_ffff,
        ;
        if grid.len() as u64 > i64::MAX as u64 || width as u64 > i64::MAX as u64 || (
        grid.len() as u128) * (width as u128) > usize::MAX as u128 {
            assert(!fits(rows));
            return Err(MapError::TooLarge);
        }
        assert(fits(rows));
        Ok(NorthPoleMap::new(grid, Guard::new((row as i64, col as i64), orientation)))
    }

    /// Whether `position` names a character of the grid.
    pub fn is_in_map(&self, position: (i64, i64)) -> (inside: bool)
        ensures
            inside == (0 <= position.0 < self.rows().len() && 0 <= position.1
                < self.rows()[position.0 as int].len()),
            self.wf() ==> inside == self.arena().contains(as_cell(position)),
            inside ==> position.0 <= usize::MAX && position.1 <= usize::MAX,
    {
        let inside = position.0 >= 0 && (position.0 as u64) < (self.grid.len() as u64)
            && position.1 >= 0 && (position.1 as u64) < (self.grid[position.0 as usize].len()
            as u64);
        proof {
            if self.wf() && 0 <= position.0 < self.rows().len() {
                assert(self.rows()[position.0 as int].len() == self.rows()[0].len());
            }
        }
        inside
    }

    /// Four moves for every cell of the grid: a patrol that is still inside
    /// after that many moves has come back to an earlier pose.
    fn move_budget(&self) -> (budget: u128)
        requires
            self.wf(),
        ensures
            budget == 4 * (self.arena().height * self.arena().width),
    {
        let height = self.grid.len() as u128;
        let width = self.grid[0].len() as u128;
        assert(height * width == self.arena().height * self.arena().width);
        4 * (height * width)
    }

    /// Every cell the patrol passes over, from the guard's own cell to the
    /// last one before it leaves the grid; where the patrol never leaves,
    /// every cell of the loop it ends in and of the way there.
    pub fn get_guard_locations(&self) -> (locations: PositionSet)
        requires
            self.wf(),
        ensures
            locations.wf(),
            locations@ == self.arena().visited(self.guard@),
            locations@.contains(self.guard@.cell),
    {
        let mut locations = PositionSet::new();
        let mut guard = self.guard.clone();
        let mut budget = self.move_budget();
        let ghost arena = self.arena();
        let ghost start = self.guard@;
        let ghost mut moves: nat = 0;
        proof {
            lemma_trail_empty(arena, start);
            assert(arena.stands_on(start, 0, start.cell));
        }
        loop
            invariant_except_break
                arena.after(start, moves) == Some(guard@),
                locations@ == arena.trail(start, moves),
                moves + budget == 4 * (arena.height * arena.width),
            invariant
                self.wf(),
                arena == self.arena(),
                start == self.guard@,
                locations.wf(),
            ensures
                locations@ == arena.visited(start),
            decreases budget,
        {
            proof {
                lemma_stays_inside(arena, start, moves);
                lemma_trail_grows(arena, start, moves, guard@);
                lemma_trail_inside(arena, start, moves + 1);
                lemma_cells_bounded(arena, arena.trail(start, moves + 1));
                locations.lemma_finite();
            }
            locations.insert(guard.get_position());
            let next_position = guard.get_next_position();
            if !self.is_in_map(next_position) {
                proof {
                    assert(arena.after(start, moves + 1) is None);
                    lemma_trail_complete_at_exit(arena, start, moves + 1);
                }
                break ;
            } else if self.grid[next_position.0 as usize][next_position.1 as usize] == '#' {
                assert(obstructed(self.rows(), as_cell(next_position)));
                guard.turn_right();
            } else {
                assert(!obstructed(self.rows(), as_cell(next_position)));
                guard.advance();
            }
            assert(arena.after(start, moves + 1) == Some(guard@));
            if budget == 0 {
                proof {
                    lemma_long_walk_repeats(arena, start, moves + 1);
                    let (i, j) = choose|i: nat, j: nat|
                        j <= moves + 1 && repeats_at(arena, start, i, j);
                    lemma_trail_complete_at_repeat(arena, start, i, j, moves + 1);
                }
                break ;
            }
            budget = budget - 1;
            proof {
                moves = moves + 1;
            }
        }
        proof {
            assert(arena.stands_on(start, 0, start.cell));
        }
        locations
    }

    /// Every cell of the patrol's route, but the guard's own, on which one
    /// added obstruction would keep the guard inside the grid for ever.
    pub fn get_wall_cycle_locations(&self) -> (cycle_wall_locations: PositionSet)
        requires
            self.wf(),
        ensures
            cycle_wall_locations.wf(),
            cycle_wall_locations@ == self.arena().trap_cells(self.guard@),
            !cycle_wall_locations@.contains(self.guard@.cell),
    {
        let mut walls = Walls::from_map(self);
        let mut seen_positions = PositionSet::new();
        let mut cycle_wall_locations = PositionSet::new();
        let mut guard = self.guard.clone();
        let mut budget = self.move_budget();
        let ghost arena = self.arena();
        let ghost start = self.guard@;
        let ghost mut moves: nat = 0;
        proof {
            lemma_trail_empty(arena, start);
            lemma_trail_grows(arena, start, 0, start);
            assert(cycle_wall_locations@ =~= trapped_on(arena, start, 1));
        }
        loop
            invariant_except_break
                arena.after(start, moves) == Some(guard@),
                seen_positions@ == arena.trail(start, moves),
                moves + budget == 4 * (arena.height * arena.width),
                cycle_wall_locations@ == trapped_on(arena, start, moves + 1),
            invariant
                self.wf(),
                arena == self.arena(),
                start == self.guard@,
                walls.wf(),
                walls@ == arena.walls,
                seen_positions.wf(),
                cycle_wall_locations.wf(),
            ensures
                cycle_wall_locations@ == arena.trap_cells(start),
            decreases budget,
        {
            proof {
                lemma_stays_inside(arena, start, moves);
                lemma_trail_grows(arena, start, moves, guard@);
                lemma_trail_inside(arena, start, moves + 1);
                lemma_cells_bounded(arena, arena.trail(start, moves + 1));
                seen_positions.lemma_finite();
            }
            seen_positions.insert(guard.get_position());
            let next_position = guard.get_next_position();
            if !self.is_in_map(next_position) {
                proof {
                    assert(arena.after(start, moves + 1) is None);
                    lemma_trail_complete_at_exit(arena, start, moves + 1);
                    assert(cycle_wall_locations@ =~= arena.trap_cells(start));
                }
                break ;
            } else if self.grid[next_position.0 as usize][next_position.1 as usize] == '#' {
                assert(obstructed(self.rows(), as_cell(next_position)));
                guard.turn_right();
                proof {
                    lemma_trail_grows(arena, start, moves + 1, guard@);
                    assert(arena.trail(start, moves + 2) =~= arena.trail(start, moves + 1));
                }
            } else {
                assert(!obstructed(self.rows(), as_cell(next_position)));
                let ghost cell = as_cell(next_position);
                let ghost probed = arena.with_wall(cell);
                walls.insert(next_position);
                let fresh = !seen_positions.contains(next_position);
                let cycle = fresh && NorthPoleMap::check_is_cycle(&guard, &walls);
                proof {
                    lemma_trail_grows(arena, start, moves + 1, guard@.advanced());
                    lemma_trail_inside(arena, start, moves + 2);
                    lemma_cells_bounded(arena, arena.trail(start, moves + 2));
                    cycle_wall_locations.lemma_finite();
                    assert(arena.stands_on(start, moves + 1, cell));
                    assert(arena.stands_on(start, 0, start.cell));
                    if fresh {
                        lemma_new_wall_keeps_past(arena, start, moves, cell);
                        lemma_exits_from_later(probed, start, moves);
                        lemma_jumps_agree_with_walk(probed, guard@);
                        assert(cycle == arena.traps(start, cell));
                    }
                    vstd::set_lib::lemma_len_subset(
                        trapped_on(arena, start, moves + 2),
                        arena.trail(start, moves + 2),
                    );
                    if cycle {
                        assert(cycle_wall_locations@.insert(cell) =~= trapped_on(
                            arena,
                            start,
                            moves + 2,
                        ));
                    }
                }
                if cycle {
                    cycle_wall_locations.insert(next_position);
                }
                walls.remove(next_position);
                guard.advance();
                proof {
                    assert(walls@ =~= arena.walls);
                    assert(cycle_wall_locations@ =~= trapped_on(arena, start, moves + 2));
                }
            }
            assert(arena.after(start, moves + 1) == Some(guard@));
            if budget == 0 {
                proof {
                    lemma_long_walk_repeats(arena, start, moves + 1);
                    let (i, j) = choose|i: nat, j: nat|
                        j <= moves + 1 && repeats_at(arena, start, i, j);
                    lemma_trail_complete_at_repeat(arena, start, i, j, moves + 2);
                    assert(cycle_wall_locations@ =~= arena.trap_cells(start));
                }
                break ;
            }
            budget = budget - 1;
            proof {
                moves = moves + 1;
            }
        }
        cycle_wall_locations.remove(self.guard.get_position());
        proof {
            assert(cycle_wall_locations@ =~= arena.trap_cells(start));
        }
        cycle_wall_locations
    }

    /// Whether a guard starting as `guard` among `walls` is caught in a loop:
    /// jumping from obstruction to obstruction, it never finds its way free.
    pub fn check_is_cycle(guard: &Guard, walls: &Walls) -> (cycle: bool)
        requires
            walls.wf(),
        ensures
            cycle == !escapes(walls@, guard@),
    {
        let mut seen_positions = PoseSet::new();
        let ghost start = guard@;
        let mut walker = guard.clone();
        let ghost mut landed: Seq<Pose> = Seq::empty();
        proof {
            walls.lemma_finite();
        }
        loop
            invariant
                start == guard@,
                walls.wf(),
                walls@.finite(),
                seen_positions.wf(),
                after_jumps(walls@, start, landed.len()) == Some(walker@),
                forall|t: int|
                    0 <= t < landed.len() ==> after_jumps(walls@, start, (t + 1) as nat) == Some(
                        #[trigger] landed[t],
                    ),
                forall|t: int|
                    0 <= t < landed.len() ==> walls@.contains(stopper(#[trigger] landed[t])),
                landed.no_duplicates(),
                seen_positions@ == landed.to_set(),
                landed.len() <= 4 * walls@.len(),
            decreases 4 * walls@.len() - landed.len(),
        {
            match walls.get_position_before_next_wall(&walker) {
                Some(position) => {
                    let ghost before = walker@;
                    walker.set_position(position);
                    walker.turn_right();
                    proof {
                        lemma_landing_has_stopper(walls@, before);
                        assert(after_jumps(walls@, start, landed.len() + 1) == Some(walker@));
                    }
                    if !seen_positions.insert(walker.clone()) {
                        proof {
                            let t = choose|t: int| 0 <= t < landed.len() && landed[t] == walker@;
                            lemma_jump_repeat_never_escapes(
                                walls@,
                                start,
                                (t + 1) as nat,
                                landed.len() + 1,
                            );
                        }
                        return true;
                    }
                    proof {
                        let longer = landed.push(walker@);
                        assert(longer.to_set() =~= landed.to_set().insert(walker@)) by {
                            assert forall|pose: Pose|
                                landed.to_set().insert(walker@).contains(
                                    pose,
                                ) implies longer.to_set().contains(pose) by {
                                if pose == walker@ {
                                    assert(longer[landed.len() as int] == pose);
                                } else {
                                    let t = choose|t: int|
                                        0 <= t < landed.len() && landed[t] == pose;
                                    assert(longer[t] == pose);
                                }
                            }
                        }
                        assert(longer.no_duplicates()) by {
                            assert forall|a: int, b: int|
                                0 <= a < longer.len() && 0 <= b < longer.len() && a
                                    != b implies longer[a] != longer[b] by {
                                if a < landed.len() && b < landed.len() {
                                } else if a < landed.len() {
                                    assert(landed.to_set().contains(landed[a]));
                                } else {
                                    assert(landed.to_set().contains(landed[b]));
                                }
                            }
                        }
                        landed = longer;
                        lemma_landings_bounded(walls@, landed);
                    }
                },
                None => {
                    proof {
                        assert(free_after(walls@, start, landed.len() + 1));
                    }
                    return false;
                },
            }
        }
    }
}

/// Patrolling one map twice gives the same cells, and as many: whatever two
/// runs of the patrol return, they hold the same positions.
pub proof fn lemma_patrol_repeatable(map: NorthPoleMap, first: PositionSet, second: PositionSet)
    requires
        first@ == map.arena().visited(map.guard@),
        second@ == map.arena().visited(map.guard@),
    ensures
        first@ == second@,
        first@.len() == second@.len(),
{
}

/// Trying an obstruction on a free cell and taking it off again leaves the
/// index holding exactly the obstructions it held before.
pub proof fn lemma_probe_restores_walls(
    before: Walls,
    probed: Walls,
    after: Walls,
    cell: (i64, i64),
)
    requires
        !before@.contains(as_cell(cell)),
        probed@ == before@.insert(as_cell(cell)),
        after@ == probed@.remove(as_cell(cell)),
    ensures
        after@ == before@,
{
    assert(after@ =~= before@);
}

/// How many distinct cells the guard drawn in `input` passes over on its
/// patrol, its own cell included.
pub fn find_distinct_guard_positions(input: &str) -> (count: Result<usize, MapError>)
    ensures
        match count {
            Ok(cells) => {
                &&& map_fault(lines_of(input@)) is None
                &&& cells == arena_of(lines_of(input@)).visited(start_of(lines_of(input@))).len()
                &&& cells >= 1
            },
            Err(fault) => map_fault(lines_of(input@)) == Some(fault),
        },
{
    let map = match NorthPoleMap::from_text(input) {
        Ok(map) => map,
        Err(fault) => {
            return Err(fault);
        },
    };
    let locations = map.get_guard_locations();
    proof {
        locations.lemma_finite();
        if locations@.len() == 0 {
            assert(locations@ =~= Set::empty());
        }
    }
    Ok(locations.len())
}

/// On how many cells of the patrol's route one added obstruction would trap
/// the guard drawn in `input` in a loop.
pub fn find_wall_cycle_locations(input: &str) -> (count: Result<usize, MapError>)
    ensures
        match count {
            Ok(cells) => {
                &&& map_fault(lines_of(input@)) is None
                &&& cells == arena_of(lines_of(input@)).trap_cells(
                    start_of(lines_of(input@)),
                ).len()
            },
            Err(fault) => map_fault(lines_of(input@)) == Some(fault),
        },
{
    let map = match NorthPoleMap::from_text(input) {
        Ok(map) => map,
        Err(fault) => {
            return Err(fault);
        },
    };
    let wall_cycle_locations = map.get_wall_cycle_locations();
    Ok(wall_cycle_locations.len())
}

} // verus!
