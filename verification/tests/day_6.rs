use aoc_2024::cells::{LineIndex, PositionSet};
use aoc_2024::day_6::index::PoseSet;
use aoc_2024::day_6::layout::MapError;
use aoc_2024::day_6::{
    find_distinct_guard_positions, find_wall_cycle_locations, Guard, NorthPoleMap, Orientation,
    Walls,
};

const SAMPLE: &str = "....#.....
.........#
..........
..#.......
.......#..
..........
.#..^.....
........#.
#.........
......#...
";

fn grid_of(text: &str) -> Vec<Vec<char>> {
    text.lines().map(|line| line.chars().collect()).collect()
}

/// Walks cell by cell and remembers every pose: the slow way to tell a loop.
fn loops_step_by_step(grid: &Vec<Vec<char>>, start: (i64, i64), facing: Orientation) -> bool {
    let height = grid.len() as i64;
    let width = grid[0].len() as i64;
    let mut seen = std::collections::HashSet::new();
    let mut guard = Guard::new(start, facing);
    loop {
        if !seen.insert((guard.position, guard.orientation)) {
            return true;
        }
        let next = guard.get_next_position();
        if next.0 < 0 || next.0 >= height || next.1 < 0 || next.1 >= width {
            return false;
        }
        if grid[next.0 as usize][next.1 as usize] == '#' {
            guard.turn_right();
        } else {
            guard.advance();
        }
    }
}

#[test]
fn sample_patrol_visits_41_cells() {
    assert_eq!(find_distinct_guard_positions(SAMPLE), Ok(41));
}

#[test]
fn sample_has_6_trapping_cells() {
    assert_eq!(find_wall_cycle_locations(SAMPLE), Ok(6));
}

#[test]
fn sample_trapping_cells_are_the_known_ones() {
    let map = NorthPoleMap::from_text(SAMPLE).unwrap();
    let traps = map.get_wall_cycle_locations();
    for cell in [(6, 3), (7, 6), (7, 7), (8, 1), (8, 3), (9, 7)] {
        assert!(traps.contains(cell));
    }
    assert_eq!(traps.len(), 6);
}

#[test]
fn lone_guard_visits_one_cell_and_has_no_trap() {
    assert_eq!(find_distinct_guard_positions("^"), Ok(1));
    assert_eq!(find_wall_cycle_locations("^"), Ok(0));
}

#[test]
fn guard_at_the_edge_leaves_at_once() {
    assert_eq!(find_distinct_guard_positions("..\n.>\n"), Ok(1));
    assert_eq!(find_wall_cycle_locations("..\n.>\n"), Ok(0));
}

#[test]
fn text_without_guard_is_refused() {
    assert_eq!(find_distinct_guard_positions(""), Err(MapError::NoGuard));
    assert_eq!(find_distinct_guard_positions("..#\n...\n"), Err(MapError::NoGuard));
    assert_eq!(find_wall_cycle_locations(".#.\n"), Err(MapError::NoGuard));
}

#[test]
fn uneven_rows_are_refused() {
    assert_eq!(find_distinct_guard_positions("^..\n..\n"), Err(MapError::UnevenRows));
    assert_eq!(find_wall_cycle_locations("..\n.^.\n"), Err(MapError::UnevenRows));
}

#[test]
fn missing_guard_is_reported_before_uneven_rows() {
    assert_eq!(find_distinct_guard_positions("...\n..\n"), Err(MapError::NoGuard));
}

#[test]
fn the_first_glyph_in_reading_order_is_the_guard() {
    let map = NorthPoleMap::from_text("..>\nv..\n").unwrap();
    assert_eq!(map.guard.position, (0, 2));
    assert_eq!(map.guard.orientation, Orientation::East);
    assert_eq!(find_distinct_guard_positions("..>\nv..\n"), Ok(1));
}

#[test]
fn each_glyph_gives_its_orientation() {
    assert_eq!(Orientation::from_glyph('^'), Some(Orientation::North));
    assert_eq!(Orientation::from_glyph('>'), Some(Orientation::East));
    assert_eq!(Orientation::from_glyph('v'), Some(Orientation::South));
    assert_eq!(Orientation::from_glyph('<'), Some(Orientation::West));
    assert_eq!(Orientation::from_glyph('.'), None);
    assert_eq!(Orientation::from_glyph('#'), None);
}

#[test]
fn carriage_returns_end_lines_too() {
    let map = NorthPoleMap::from_text("..#\r\n^..\r\n").unwrap();
    assert_eq!(map.grid, vec![vec!['.', '.', '#'], vec!['^', '.', '.']]);
    assert_eq!(map.guard.position, (1, 0));
    assert_eq!(find_distinct_guard_positions("..#\r\n^..\r\n"), Ok(2));
}

#[test]
fn last_line_needs_no_line_feed() {
    assert_eq!(find_distinct_guard_positions(".\n^"), Ok(2));
    assert_eq!(find_distinct_guard_positions(".\n^\n"), Ok(2));
}

#[test]
fn turn_right_goes_round_the_compass() {
    assert_eq!(Orientation::North.turn_right(), Orientation::East);
    assert_eq!(Orientation::East.turn_right(), Orientation::South);
    assert_eq!(Orientation::South.turn_right(), Orientation::West);
    assert_eq!(Orientation::West.turn_right(), Orientation::North);
}

#[test]
fn four_turns_close_the_cycle() {
    for facing in [Orientation::North, Orientation::East, Orientation::South, Orientation::West] {
        assert_eq!(facing.turn_right().turn_right().turn_right().turn_right(), facing);
    }
}

#[test]
fn guard_peeks_and_advances_one_cell() {
    let cases = [
        (Orientation::North, (4, 5)),
        (Orientation::East, (5, 6)),
        (Orientation::South, (6, 5)),
        (Orientation::West, (5, 4)),
    ];
    for (facing, ahead) in cases {
        let mut guard = Guard::new((5, 5), facing);
        assert_eq!(guard.get_position(), (5, 5));
        assert_eq!(guard.get_next_position(), ahead);
        assert_eq!(guard.get_position(), (5, 5));
        guard.advance();
        assert_eq!(guard.get_position(), ahead);
        assert_eq!(guard.orientation, facing);
    }
}

#[test]
fn guard_turn_keeps_the_position() {
    let mut guard = Guard::new((2, 3), Orientation::West);
    guard.turn_right();
    assert_eq!(guard, Guard::new((2, 3), Orientation::North));
}

#[test]
fn guard_set_position_keeps_the_orientation() {
    let mut guard = Guard::new((2, 3), Orientation::South);
    guard.set_position((-1, 40));
    assert_eq!(guard, Guard::new((-1, 40), Orientation::South));
}

#[test]
fn is_in_map_tells_the_bounds() {
    let map = NorthPoleMap::new(grid_of("...\n.^.\n"), Guard::new((1, 1), Orientation::North));
    assert!(map.is_in_map((0, 0)));
    assert!(map.is_in_map((1, 2)));
    assert!(!map.is_in_map((2, 0)));
    assert!(!map.is_in_map((0, 3)));
    assert!(!map.is_in_map((-1, 0)));
    assert!(!map.is_in_map((0, -1)));
}

#[test]
fn walls_stop_the_guard_one_cell_short() {
    let mut walls = Walls::new();
    walls.insert((0, 5));
    walls.insert((5, 9));
    walls.insert((9, 5));
    walls.insert((5, 0));
    let at = (5, 5);
    assert_eq!(
        walls.get_position_before_next_wall(&Guard::new(at, Orientation::North)),
        Some((1, 5))
    );
    assert_eq!(
        walls.get_position_before_next_wall(&Guard::new(at, Orientation::East)),
        Some((5, 8))
    );
    assert_eq!(
        walls.get_position_before_next_wall(&Guard::new(at, Orientation::South)),
        Some((8, 5))
    );
    assert_eq!(
        walls.get_position_before_next_wall(&Guard::new(at, Orientation::West)),
        Some((5, 1))
    );
}

#[test]
fn walls_give_the_nearest_of_several() {
    let mut walls = Walls::new();
    for col in [1, 3, 8, 12, 20] {
        walls.insert((4, col));
    }
    assert_eq!(
        walls.get_position_before_next_wall(&Guard::new((4, 5), Orientation::East)),
        Some((4, 7))
    );
    assert_eq!(
        walls.get_position_before_next_wall(&Guard::new((4, 5), Orientation::West)),
        Some((4, 4))
    );
}

#[test]
fn walls_behind_or_beside_do_not_stop_the_guard() {
    let mut walls = Walls::new();
    walls.insert((7, 5));
    walls.insert((3, 4));
    walls.insert((3, 6));
    assert_eq!(walls.get_position_before_next_wall(&Guard::new((5, 5), Orientation::North)), None);
    assert_eq!(walls.get_position_before_next_wall(&Guard::new((5, 5), Orientation::East)), None);
}

#[test]
fn guard_next_to_a_wall_stays_where_it_is() {
    let mut walls = Walls::new();
    walls.insert((4, 5));
    assert_eq!(
        walls.get_position_before_next_wall(&Guard::new((5, 5), Orientation::North)),
        Some((5, 5))
    );
}

#[test]
fn no_walls_no_stop() {
    let walls = Walls::new();
    assert_eq!(walls.get_position_before_next_wall(&Guard::new((0, 0), Orientation::South)), None);
}

#[test]
fn removing_a_missing_wall_changes_nothing() {
    let mut walls = Walls::new();
    walls.insert((2, 2));
    walls.remove((3, 3));
    walls.remove((2, 7));
    assert_eq!(
        walls.get_position_before_next_wall(&Guard::new((5, 2), Orientation::North)),
        Some((3, 2))
    );
}

#[test]
fn probing_and_removing_restores_the_walls() {
    let map = NorthPoleMap::from_text(SAMPLE).unwrap();
    let mut walls = Walls::from_map(&map);
    let guards = [
        Guard::new((6, 4), Orientation::North),
        Guard::new((6, 4), Orientation::East),
        Guard::new((1, 4), Orientation::South),
        Guard::new((3, 9), Orientation::West),
    ];
    let before: Vec<_> =
        guards.iter().map(|guard| walls.get_position_before_next_wall(guard)).collect();
    walls.insert((3, 4));
    assert_eq!(
        walls.get_position_before_next_wall(&Guard::new((6, 4), Orientation::North)),
        Some((4, 4))
    );
    walls.remove((3, 4));
    let after: Vec<_> =
        guards.iter().map(|guard| walls.get_position_before_next_wall(guard)).collect();
    assert_eq!(before, after);
}

#[test]
fn walls_from_map_mirror_the_grid() {
    let map = NorthPoleMap::from_text(SAMPLE).unwrap();
    let walls = Walls::from_map(&map);
    assert_eq!(
        walls.get_position_before_next_wall(&Guard::new((6, 4), Orientation::North)),
        Some((1, 4))
    );
    assert_eq!(
        walls.get_position_before_next_wall(&Guard::new((1, 4), Orientation::East)),
        Some((1, 8))
    );
    assert_eq!(walls.get_position_before_next_wall(&Guard::new((9, 0), Orientation::East)),
        Some((9, 5)));
    assert_eq!(walls.get_position_before_next_wall(&Guard::new((7, 7), Orientation::South)), None);
}

#[test]
fn four_walls_in_a_ring_make_a_cycle() {
    let mut walls = Walls::new();
    walls.insert((0, 1));
    walls.insert((1, 3));
    walls.insert((3, 2));
    walls.insert((2, 0));
    let guard = Guard::new((2, 1), Orientation::North);
    assert!(NorthPoleMap::check_is_cycle(&guard, &walls));
    assert_eq!(guard, Guard::new((2, 1), Orientation::North));
}

#[test]
fn an_open_side_is_no_cycle() {
    let mut walls = Walls::new();
    walls.insert((0, 1));
    walls.insert((1, 3));
    walls.insert((3, 2));
    assert!(!NorthPoleMap::check_is_cycle(&Guard::new((2, 1), Orientation::North), &walls));
    assert!(!NorthPoleMap::check_is_cycle(&Guard::new((2, 1), Orientation::North), &Walls::new()));
}

#[test]
fn a_boxed_in_guard_turns_for_ever() {
    let mut walls = Walls::new();
    for wall in [(0, 1), (1, 2), (2, 1), (1, 0)] {
        walls.insert(wall);
    }
    assert!(NorthPoleMap::check_is_cycle(&Guard::new((1, 1), Orientation::West), &walls));
    let text = ".#.\n#^#\n.#.\n";
    assert_eq!(find_distinct_guard_positions(text), Ok(1));
    assert_eq!(find_wall_cycle_locations(text), Ok(0));
}

#[test]
fn a_patrol_that_loops_on_its_own_visits_the_loop() {
    let text = ".#...\n....#\n.^...\n#....\n...#.\n";
    let map = NorthPoleMap::from_text(text).unwrap();
    assert!(loops_step_by_step(&map.grid, (2, 1), Orientation::North));
    let cells = map.get_guard_locations();
    assert_eq!(cells.len(), 8);
    for cell in [(2, 1), (1, 1), (1, 2), (1, 3), (2, 3), (3, 3), (3, 2), (3, 1)] {
        assert!(cells.contains(cell));
    }
}

#[test]
fn patrol_holds_the_starting_cell() {
    for text in [SAMPLE, "^", "..\n.>\n", ".#.\n#^#\n.#.\n"] {
        let map = NorthPoleMap::from_text(text).unwrap();
        let cells = map.get_guard_locations();
        assert!(cells.len() >= 1);
        assert!(cells.contains(map.guard.position));
    }
}

#[test]
fn patrol_twice_gives_the_same_cells() {
    let map = NorthPoleMap::from_text(SAMPLE).unwrap();
    let first = map.get_guard_locations();
    let second = map.get_guard_locations();
    assert_eq!(first.len(), second.len());
    for row in 0..10 {
        for col in 0..10 {
            assert_eq!(first.contains((row, col)), second.contains((row, col)));
        }
    }
    assert_eq!(map.guard, Guard::new((6, 4), Orientation::North));
}

#[test]
fn starting_cell_is_never_a_trap() {
    let texts = [SAMPLE, "^", ".#.\n#^#\n.#.\n", ".#..\n...#\n.^..\n..#.\n", "#.\n^#\n"];
    for text in texts {
        let map = NorthPoleMap::from_text(text).unwrap();
        assert!(!map.get_wall_cycle_locations().contains(map.guard.position));
    }
}

#[test]
fn jumps_agree_with_the_step_by_step_walk() {
    let texts = [SAMPLE, ".#..\n...#\n.^..\n..#.\n", "....\n#..#\n.^..\n.#..\n", "..#.\n.>.#\n#...\n..#.\n"];
    for text in texts {
        let map = NorthPoleMap::from_text(text).unwrap();
        let route = map.get_guard_locations();
        let traps = map.get_wall_cycle_locations();
        let mut expected = 0;
        for row in 0..map.grid.len() as i64 {
            for col in 0..map.grid[0].len() as i64 {
                let on_route = route.contains((row, col)) && (row, col) != map.guard.position;
                let mut changed = map.grid.clone();
                changed[row as usize][col as usize] = '#';
                let slow =
                    loops_step_by_step(&changed, map.guard.position, map.guard.orientation);
                assert_eq!(traps.contains((row, col)), on_route && slow);
                if on_route && slow {
                    expected += 1;
                }
                if map.grid[row as usize][col as usize] != '#' {
                    let mut walls = Walls::from_map(&map);
                    walls.insert((row, col));
                    assert_eq!(NorthPoleMap::check_is_cycle(&map.guard, &walls), slow);
                }
            }
        }
        assert_eq!(traps.len(), expected);
    }
}

#[test]
fn position_set_counts_distinct_positions() {
    let mut set = PositionSet::new();
    assert_eq!(set.len(), 0);
    assert!(set.insert((1, 2)));
    assert!(set.insert((2, 1)));
    assert!(!set.insert((1, 2)));
    assert_eq!(set.len(), 2);
    assert!(set.contains((2, 1)));
    assert!(!set.contains((2, 2)));
    assert!(set.remove((1, 2)));
    assert!(!set.remove((1, 2)));
    assert_eq!(set.len(), 1);
    assert!(!set.contains((1, 2)));
}

#[test]
fn pose_set_tells_orientations_apart() {
    let mut set = PoseSet::new();
    assert!(set.insert(Guard::new((1, 2), Orientation::North)));
    assert!(set.insert(Guard::new((1, 2), Orientation::East)));
    assert!(set.insert(Guard::new((2, 1), Orientation::North)));
    assert!(!set.insert(Guard::new((1, 2), Orientation::North)));
    assert!(set.insert(Guard::new((1, 2), Orientation::South)));
    assert!(set.insert(Guard::new((1, 2), Orientation::West)));
    assert!(!set.insert(Guard::new((1, 2), Orientation::West)));
}

#[test]
fn line_index_finds_neighbours_on_a_line() {
    let mut index = LineIndex::new();
    for offset in [-4, 0, 3, 9] {
        assert!(index.insert(7, offset));
    }
    assert!(index.insert(8, 5));
    assert!(!index.insert(7, 3));
    assert!(index.contains(7, 9));
    assert!(!index.contains(9, 7));
    assert_eq!(index.nearest_below(7, 3), Some(0));
    assert_eq!(index.nearest_below(7, 4), Some(3));
    assert_eq!(index.nearest_below(7, -4), None);
    assert_eq!(index.nearest_above(7, 3), Some(9));
    assert_eq!(index.nearest_above(7, -10), Some(-4));
    assert_eq!(index.nearest_above(7, 9), None);
    assert_eq!(index.nearest_above(6, 0), None);
    assert!(index.remove(7, 3));
    assert!(!index.remove(7, 3));
    assert_eq!(index.nearest_below(7, 4), Some(0));
}

/// A small generator of numbers that look random, the same on every run.
fn next_number(state: &mut u64) -> u64 {
    *state = state.wrapping_mul(6364136223846793005).wrapping_add(1442695040888963407);
    *state >> 33
}

fn scattered_map(state: &mut u64) -> String {
    let height = 1 + next_number(state) % 7;
    let width = 1 + next_number(state) % 7;
    let guard = next_number(state) % (height * width);
    let glyph = ['^', '>', 'v', '<'][(next_number(state) % 4) as usize];
    let mut text = String::new();
    for cell in 0..height * width {
        if cell == guard {
            text.push(glyph);
        } else if next_number(state) % 4 == 0 {
            text.push('#');
        } else {
            text.push('.');
        }
        if cell % width == width - 1 {
            text.push('\n');
        }
    }
    text
}

#[test]
fn scattered_maps_agree_with_the_step_by_step_walk() {
    let mut state = 2024;
    for _ in 0..300 {
        let text = scattered_map(&mut state);
        let map = NorthPoleMap::from_text(&text).unwrap();
        let height = map.grid.len() as i64;
        let width = map.grid[0].len() as i64;
        let mut walked = std::collections::HashSet::new();
        let mut guard = map.guard;
        let mut seen = std::collections::HashSet::new();
        while seen.insert((guard.position, guard.orientation)) {
            walked.insert(guard.position);
            let next = guard.get_next_position();
            if next.0 < 0 || next.0 >= height || next.1 < 0 || next.1 >= width {
                break;
            }
            if map.grid[next.0 as usize][next.1 as usize] == '#' {
                guard.turn_right();
            } else {
                guard.advance();
            }
        }
        let route = map.get_guard_locations();
        let traps = map.get_wall_cycle_locations();
        assert_eq!(route.len(), walked.len());
        assert_eq!(find_distinct_guard_positions(&text), Ok(walked.len()));
        let mut expected = 0;
        for row in 0..height {
            for col in 0..width {
                assert_eq!(route.contains((row, col)), walked.contains(&(row, col)));
                let mut changed = map.grid.clone();
                changed[row as usize][col as usize] = '#';
                let trapped = walked.contains(&(row, col))
                    && (row, col) != map.guard.position
                    && loops_step_by_step(&changed, map.guard.position, map.guard.orientation);
                assert_eq!(traps.contains((row, col)), trapped);
                if trapped {
                    expected += 1;
                }
            }
        }
        assert_eq!(find_wall_cycle_locations(&text), Ok(expected));
        assert!(!traps.contains(map.guard.position));
    }
}
