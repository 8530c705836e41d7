//! Facts about the walk by jumps, and why it classifies a patrol exactly as
//! the cell-by-cell walk does.

use vstd::prelude::*;
use vstd::set_lib::{lemma_len_subset, lemma_len_union, lemma_map_size_bound};
use crate::day_6::Orientation;
use crate::day_6::model::{
    after_jumps, blocked, escapes, first_wall_at, free_after, jump, shift, wall_at,
    wall_distance, Arena, Pose,
};
use crate::day_6::walk::{lemma_after_split, lemma_gone_persists};

verus! {

/// Where an obstruction lies ahead, a nearest one lies ahead.
pub proof fn lemma_nearest_wall_exists(walls: Set<(int, int)>, pose: Pose, d: int)
    requires
        wall_at(walls, pose, d),
    ensures
        exists|near: int| first_wall_at(walls, pose, near),
    decreases d,
{
    if !first_wall_at(walls, pose, d) {
        let k = choose|k: int| 1 <= k < d && wall_at(walls, pose, k);
        lemma_nearest_wall_exists(walls, pose, k);
    }
}

/// The nearest obstruction ahead is at one distance only.
pub proof fn lemma_wall_distance_is(walls: Set<(int, int)>, pose: Pose, d: int)
    requires
        first_wall_at(walls, pose, d),
    ensures
        blocked(walls, pose),
        wall_distance(walls, pose) == d,
{
    let chosen = wall_distance(walls, pose);
    assert(first_wall_at(walls, pose, chosen));
    if chosen < d {
        assert(!wall_at(walls, pose, chosen));
    }
    if d < chosen {
        assert(!wall_at(walls, pose, d));
    }
}

/// A blocked pose has a nearest obstruction, at `wall_distance`.
pub proof fn lemma_blocked_has_distance(walls: Set<(int, int)>, pose: Pose)
    requires
        blocked(walls, pose),
    ensures
        first_wall_at(walls, pose, wall_distance(walls, pose)),
{
    let d = choose|d: int| wall_at(walls, pose, d);
    lemma_nearest_wall_exists(walls, pose, d);
}

/// With `k` free cells ahead, all inside the lattice, `k` moves carry the
/// guard straight over them.
pub proof fn lemma_straight_run(arena: Arena, pose: Pose, k: nat)
    requires
        arena.contains(pose.cell),
        arena.contains(shift(pose.cell, pose.facing, k as int)),
        forall|j: int| 1 <= j <= k ==> !wall_at(arena.walls, pose, j),
    ensures
        arena.after(pose, k) == Some(
            Pose { cell: shift(pose.cell, pose.facing, k as int), facing: pose.facing },
        ),
    decreases k,
{
    if k > 0 {
        lemma_straight_run(arena, pose, (k - 1) as nat);
        assert(!wall_at(arena.walls, pose, k as int));
    }
}

/// A jump is a straight run to the cell short of the nearest obstruction and
/// one turn there: as many moves as the obstruction is cells away.
pub proof fn lemma_jump_is_a_run(arena: Arena, pose: Pose)
    requires
        arena.enclosed(),
        arena.contains(pose.cell),
        blocked(arena.walls, pose),
    ensures
        wall_distance(arena.walls, pose) >= 1,
        arena.after(pose, wall_distance(arena.walls, pose) as nat) == jump(arena.walls, pose),
        jump(arena.walls, pose) matches Some(landed) && arena.contains(landed.cell),
{
    lemma_blocked_has_distance(arena.walls, pose);
    let d = wall_distance(arena.walls, pose);
    assert(arena.contains(shift(pose.cell, pose.facing, d)));
    lemma_straight_run(arena, pose, (d - 1) as nat);
    assert(wall_at(arena.walls, pose, d));
}

/// How many cells of the lattice lie ahead of a pose inside it.
pub open spec fn room_ahead(arena: Arena, pose: Pose) -> int {
    match pose.facing {
        Orientation::North => pose.cell.0,
        Orientation::East => arena.width - 1 - pose.cell.1,
        Orientation::South => arena.height - 1 - pose.cell.0,
        Orientation::West => pose.cell.1,
    }
}

/// With nothing ahead, the guard walks straight out of the lattice.
pub proof fn lemma_free_run_exits(arena: Arena, pose: Pose)
    requires
        arena.contains(pose.cell),
        !blocked(arena.walls, pose),
    ensures
        arena.after(pose, (room_ahead(arena, pose) + 1) as nat) is None,
{
    let room = room_ahead(arena, pose);
    assert forall|j: int| 1 <= j <= room implies !wall_at(arena.walls, pose, j) by {}
    lemma_straight_run(arena, pose, room as nat);
}

/// Every pose the walk by jumps reaches, the cell-by-cell walk reaches too,
/// after at least as many moves as there were jumps.
pub proof fn lemma_jumps_follow_walk(arena: Arena, start: Pose, n: nat) -> (m: nat)
    requires
        arena.enclosed(),
        arena.contains(start.cell),
        after_jumps(arena.walls, start, n) is Some,
    ensures
        m >= n,
        arena.after(start, m) == after_jumps(arena.walls, start, n),
        arena.contains(after_jumps(arena.walls, start, n)->0.cell),
    decreases n,
{
    if n == 0 {
        0
    } else {
        let before = lemma_jumps_follow_walk(arena, start, (n - 1) as nat);
        let pose = after_jumps(arena.walls, start, (n - 1) as nat)->0;
        lemma_jump_is_a_run(arena, pose);
        let d = wall_distance(arena.walls, pose) as nat;
        lemma_after_split(arena, start, before, d);
        before + d
    }
}

/// Where the walk by jumps runs free, the cell-by-cell walk leaves the lattice.
pub proof fn lemma_escape_is_exit(arena: Arena, start: Pose, n: nat)
    requires
        arena.enclosed(),
        arena.contains(start.cell),
        free_after(arena.walls, start, n),
    ensures
        arena.exits(start),
    decreases n,
{
    if n > 0 {
        if after_jumps(arena.walls, start, (n - 1) as nat) is None {
            lemma_escape_is_exit(arena, start, (n - 1) as nat);
        } else {
            let reached = lemma_jumps_follow_walk(arena, start, (n - 1) as nat);
            let pose = after_jumps(arena.walls, start, (n - 1) as nat)->0;
            lemma_free_run_exits(arena, pose);
            let more = (room_ahead(arena, pose) + 1) as nat;
            lemma_after_split(arena, start, reached, more);
            assert(arena.gone_after(start, reached + more));
        }
    }
}

/// The walk by jumps and the cell-by-cell walk agree on whether the guard
/// gets out: on a lattice that holds all its obstructions, a guard that
/// starts inside runs free by jumps exactly when it leaves step by step.
pub proof fn lemma_jumps_agree_with_walk(arena: Arena, start: Pose)
    requires
        arena.enclosed(),
        arena.contains(start.cell),
    ensures
        escapes(arena.walls, start) <==> arena.exits(start),
{
    if escapes(arena.walls, start) {
        let n = choose|n: nat| free_after(arena.walls, start, n);
        lemma_escape_is_exit(arena, start, n);
    } else {
        assert forall|n: nat| !arena.gone_after(start, n) by {
            assert(!free_after(arena.walls, start, n));
            let m = lemma_jumps_follow_walk(arena, start, n);
            if arena.after(start, n) is None {
                lemma_gone_persists(arena, start, n, m);
            }
        }
    }
}

/// Making `m + k` jumps is making `m` jumps and then `k` more.
pub proof fn lemma_jumps_split(walls: Set<(int, int)>, start: Pose, m: nat, k: nat)
    ensures
        after_jumps(walls, start, m + k) == match after_jumps(walls, start, m) {
            Some(mid) => after_jumps(walls, mid, k),
            None => None,
        },
    decreases k,
{
    if k > 0 {
        lemma_jumps_split(walls, start, m, (k - 1) as nat);
        assert((m + k - 1) as nat == m + (k - 1) as nat);
    }
}

/// Once the guard has run free, no later jump brings it back.
pub proof fn lemma_free_persists(walls: Set<(int, int)>, start: Pose, m: nat, n: nat)
    requires
        m <= n,
        after_jumps(walls, start, m) is None,
    ensures
        after_jumps(walls, start, n) is None,
    decreases n,
{
    if m < n {
        lemma_free_persists(walls, start, m, (n - 1) as nat);
    }
}

/// Once the jumps have landed on one pose after `i` and after `j > i` jumps,
/// every later landing is one made within the first `j` jumps.
pub proof fn lemma_jump_repeat_folds_back(
    walls: Set<(int, int)>,
    start: Pose,
    i: nat,
    j: nat,
    n: nat,
)
    requires
        i < j,
        after_jumps(walls, start, i) == after_jumps(walls, start, j),
    ensures
        exists|m: nat|
            m < j && after_jumps(walls, start, n) == #[trigger] after_jumps(walls, start, m),
    decreases n,
{
    if n < j {
        assert(after_jumps(walls, start, n) == after_jumps(walls, start, n));
    } else {
        let rest = (n - j) as nat;
        lemma_jumps_split(walls, start, j, rest);
        lemma_jumps_split(walls, start, i, rest);
        lemma_jump_repeat_folds_back(walls, start, i, j, i + rest);
    }
}

/// A guard whose jumps land twice on one pose never runs free.
pub proof fn lemma_jump_repeat_never_escapes(walls: Set<(int, int)>, start: Pose, i: nat, j: nat)
    requires
        i < j,
        after_jumps(walls, start, j) is Some,
        after_jumps(walls, start, i) == after_jumps(walls, start, j),
    ensures
        !escapes(walls, start),
{
    assert forall|n: nat| !free_after(walls, start, n) by {
        lemma_jump_repeat_folds_back(walls, start, i, j, n);
        let m = choose|m: nat|
            m < j && after_jumps(walls, start, n) == #[trigger] after_jumps(walls, start, m);
        if after_jumps(walls, start, m) is None {
            lemma_free_persists(walls, start, m, j);
        }
    }
}

/// The orientation from which a quarter turn clockwise leads to `facing`.
pub open spec fn before_turn(facing: Orientation) -> Orientation {
    match facing {
        Orientation::North => Orientation::West,
        Orientation::East => Orientation::North,
        Orientation::South => Orientation::East,
        Orientation::West => Orientation::South,
    }
}

/// The cell that a guard which has just turned was facing before the turn.
pub open spec fn stopper(pose: Pose) -> (int, int) {
    shift(pose.cell, before_turn(pose.facing), 1)
}

/// The pose of a guard that has just turned away from an obstruction on
/// `wall` and now faces `facing`.
pub open spec fn landing(wall: (int, int), facing: Orientation) -> Pose {
    Pose { cell: shift(wall, before_turn(facing), -1), facing }
}

/// Every jump lands in front of an obstruction.
pub proof fn lemma_landing_has_stopper(walls: Set<(int, int)>, pose: Pose)
    requires
        blocked(walls, pose),
    ensures
        jump(walls, pose) matches Some(landed) && walls.contains(stopper(landed)),
{
    lemma_blocked_has_distance(walls, pose);
    assert(wall_at(walls, pose, wall_distance(walls, pose)));
}

/// Distinct landings are at most four for each obstruction.
pub proof fn lemma_landings_bounded(walls: Set<(int, int)>, landed: Seq<Pose>)
    requires
        walls.finite(),
        landed.no_duplicates(),
        forall|t: int| 0 <= t < landed.len() ==> walls.contains(stopper(#[trigger] landed[t])),
    ensures
        landed.len() <= 4 * walls.len(),
{
    landed.unique_seq_to_set();
    let poses = landed.to_set();
    let north = |wall: (int, int)| landing(wall, Orientation::North);
    let east = |wall: (int, int)| landing(wall, Orientation::East);
    let south = |wall: (int, int)| landing(wall, Orientation::South);
    let west = |wall: (int, int)| landing(wall, Orientation::West);
    lemma_map_size_bound(walls, walls.map(north), north);
    lemma_map_size_bound(walls, walls.map(east), east);
    lemma_map_size_bound(walls, walls.map(south), south);
    lemma_map_size_bound(walls, walls.map(west), west);
    let two = walls.map(north).union(walls.map(east));
    let three = two.union(walls.map(south));
    let all = three.union(walls.map(west));
    lemma_len_union(walls.map(north), walls.map(east));
    assert(two.finite());
    lemma_len_union(two, walls.map(south));
    assert(three.finite());
    lemma_len_union(three, walls.map(west));
    assert(all.finite());
    assert forall|pose: Pose| poses.contains(pose) implies all.contains(pose) by {
        let t = choose|t: int| 0 <= t < landed.len() && landed[t] == pose;
        let wall = stopper(landed[t]);
        assert(walls.contains(wall));
        match pose.facing {
            Orientation::North => {
                assert(north(wall) == pose);
                assert(walls.map(north).contains(pose));
            },
            Orientation::East => {
                assert(east(wall) == pose);
                assert(walls.map(east).contains(pose));
            },
            Orientation::South => {
                assert(south(wall) == pose);
                assert(walls.map(south).contains(pose));
            },
            Orientation::West => {
                assert(west(wall) == pose);
                assert(walls.map(west).contains(pose));
            },
        }
    }
    lemma_len_subset(poses, all);
}

/// For every cell of the lattice tried as an added obstruction, the walk by
/// jumps among the obstructions with that cell added tells a trapped guard
/// from one that leaves exactly as the cell-by-cell walk on the changed
/// lattice does.
pub proof fn lemma_candidate_classified(arena: Arena, pose: Pose, candidate: (int, int))
    requires
        arena.enclosed(),
        arena.contains(pose.cell),
        arena.contains(candidate),
    ensures
        escapes(arena.walls.insert(candidate), pose) <==> arena.with_wall(candidate).exits(pose),
{
    lemma_jumps_agree_with_walk(arena.with_wall(candidate), pose);
}

} // verus!
