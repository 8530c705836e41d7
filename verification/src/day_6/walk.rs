//! Facts about the cell-by-cell walk: it composes, it stays inside the
//! lattice, and on a bounded lattice it leaves or repeats itself.

use vstd::prelude::*;
use crate::day_6::counting::{lemma_cells_bounded, lemma_poses_bounded};
use crate::day_6::model::{Arena, Pose};

verus! {

/// Walking `m + k` moves is walking `m` moves and then `k` more.
pub proof fn lemma_after_split(arena: Arena, start: Pose, m: nat, k: nat)
    ensures
        arena.after(start, m + k) == match arena.after(start, m) {
            Some(mid) => arena.after(mid, k),
            None => None,
        },
    decreases k,
{
    if k > 0 {
        lemma_after_split(arena, start, m, (k - 1) as nat);
        assert((m + k - 1) as nat == m + (k - 1) as nat);
    }
}

/// Once the guard has left, it stays gone.
pub proof fn lemma_gone_persists(arena: Arena, start: Pose, m: nat, n: nat)
    requires
        m <= n,
        arena.after(start, m) is None,
    ensures
        arena.after(start, n) is None,
    decreases n,
{
    if m < n {
        lemma_gone_persists(arena, start, m, (n - 1) as nat);
    }
}

/// A walk that starts inside the lattice stays inside it.
pub proof fn lemma_stays_inside(arena: Arena, start: Pose, n: nat)
    requires
        arena.contains(start.cell),
    ensures
        arena.after(start, n) matches Some(pose) ==> arena.contains(pose.cell),
    decreases n,
{
    if n > 0 {
        lemma_stays_inside(arena, start, (n - 1) as nat);
    }
}

/// The walk holds the same pose at the two different times `i < j`.
pub open spec fn repeats_at(arena: Arena, start: Pose, i: nat, j: nat) -> bool {
    &&& i < j
    &&& arena.after(start, i) is Some
    &&& arena.after(start, i) == arena.after(start, j)
}

/// A walk that is still inside the lattice after four moves for every cell
/// has held some pose twice.
pub proof fn lemma_long_walk_repeats(arena: Arena, start: Pose, n: nat)
    requires
        0 <= arena.height,
        0 <= arena.width,
        arena.contains(start.cell),
        n >= 4 * (arena.height * arena.width),
        arena.after(start, n) is Some,
    ensures
        exists|i: nat, j: nat| j <= n && repeats_at(arena, start, i, j),
{
    let poses = Seq::new(n + 1, |t: int| arena.after(start, t as nat)->0);
    assert forall|t: int| 0 <= t <= n implies arena.after(start, t as nat) == Some(
        #[trigger] poses[t],
    ) by {
        if arena.after(start, t as nat) is None {
            lemma_gone_persists(arena, start, t as nat, n);
        }
    }
    if poses.no_duplicates() {
        poses.unique_seq_to_set();
        assert forall|pose: Pose| #[trigger] poses.to_set().contains(pose) implies arena.contains(
            pose.cell,
        ) by {
            let t = choose|t: int| 0 <= t < poses.len() && poses[t] == pose;
            lemma_stays_inside(arena, start, t as nat);
        }
        lemma_poses_bounded(arena, poses.to_set());
        assert(false);
    }
    let (a, b) = choose|a: int, b: int|
        0 <= a < poses.len() && 0 <= b < poses.len() && a != b && poses[a] == poses[b];
    if a < b {
        assert(repeats_at(arena, start, a as nat, b as nat));
    } else {
        assert(repeats_at(arena, start, b as nat, a as nat));
    }
}

/// Once the walk has held one pose at the times `i < j`, every later pose is
/// one it already held before time `j`.
pub proof fn lemma_repeat_folds_back(arena: Arena, start: Pose, i: nat, j: nat, n: nat)
    requires
        repeats_at(arena, start, i, j),
    ensures
        exists|m: nat| m < j && arena.after(start, n) == #[trigger] arena.after(start, m),
    decreases n,
{
    if n < j {
        assert(arena.after(start, n) == arena.after(start, n));
    } else {
        let rest = (n - j) as nat;
        lemma_after_split(arena, start, j, rest);
        lemma_after_split(arena, start, i, rest);
        assert(arena.after(start, n) == arena.after(start, i + rest));
        lemma_repeat_folds_back(arena, start, i, j, i + rest);
    }
}

/// A walk that repeats a pose never leaves the lattice.
pub proof fn lemma_repeat_never_exits(arena: Arena, start: Pose, i: nat, j: nat)
    requires
        repeats_at(arena, start, i, j),
    ensures
        !arena.exits(start),
{
    assert forall|n: nat| !arena.gone_after(start, n) by {
        lemma_repeat_folds_back(arena, start, i, j, n);
        let m = choose|m: nat| m < j && arena.after(start, n) == #[trigger] arena.after(start, m);
        if arena.after(start, m) is None {
            lemma_gone_persists(arena, start, m, j);
        }
    }
}

/// The trail up to time 0 is empty.
pub proof fn lemma_trail_empty(arena: Arena, start: Pose)
    ensures
        arena.trail(start, 0) == Set::<(int, int)>::empty(),
{
    assert(arena.trail(start, 0) =~= Set::<(int, int)>::empty());
}

/// One more move adds the cell the guard stood on to the trail.
pub proof fn lemma_trail_grows(arena: Arena, start: Pose, n: nat, pose: Pose)
    requires
        arena.after(start, n) == Some(pose),
    ensures
        arena.trail(start, n + 1) == arena.trail(start, n).insert(pose.cell),
{
    let bigger = arena.trail(start, n + 1);
    let smaller = arena.trail(start, n).insert(pose.cell);
    assert forall|cell: (int, int)| bigger.contains(cell) implies smaller.contains(cell) by {
        let m = choose|m: nat| m < n + 1 && arena.stands_on(start, m, cell);
        if m < n {
            assert(arena.stands_on(start, m, cell));
        }
    }
    assert forall|cell: (int, int)| smaller.contains(cell) implies bigger.contains(cell) by {
        if cell == pose.cell {
            assert(arena.stands_on(start, n, cell));
        } else {
            let m = choose|m: nat| m < n && arena.stands_on(start, m, cell);
            assert(arena.stands_on(start, m, cell));
        }
    }
    assert(bigger =~= smaller);
}

/// The trail of a walk that starts inside the lattice lies inside it.
pub proof fn lemma_trail_inside(arena: Arena, start: Pose, n: nat)
    requires
        arena.contains(start.cell),
    ensures
        forall|cell: (int, int)| #[trigger]
            arena.trail(start, n).contains(cell) ==> arena.contains(cell),
{
    assert forall|cell: (int, int)| #[trigger]
        arena.trail(start, n).contains(cell) implies arena.contains(cell) by {
        let m = choose|m: nat| m < n && arena.stands_on(start, m, cell);
        lemma_stays_inside(arena, start, m);
    }
}

/// When the guard leaves with its `n`-th move, the trail up to `n` holds
/// every cell of the patrol.
pub proof fn lemma_trail_complete_at_exit(arena: Arena, start: Pose, n: nat)
    requires
        arena.after(start, n) is None,
    ensures
        arena.visited(start) == arena.trail(start, n),
        arena.exits(start),
{
    assert(arena.gone_after(start, n));
    assert forall|cell: (int, int)| arena.visited(start).contains(cell) implies arena.trail(
        start,
        n,
    ).contains(cell) by {
        let m = choose|m: nat| arena.stands_on(start, m, cell);
        if m >= n {
            lemma_gone_persists(arena, start, n, m);
        }
        assert(arena.stands_on(start, m, cell));
    }
    assert forall|cell: (int, int)| arena.trail(start, n).contains(cell) implies arena.visited(
        start,
    ).contains(cell) by {
        let m = choose|m: nat| m < n && arena.stands_on(start, m, cell);
        assert(arena.stands_on(start, m, cell));
    }
    assert(arena.visited(start) =~= arena.trail(start, n));
}

/// When the walk has repeated a pose by time `j <= n`, the trail up to `n`
/// holds every cell of the patrol, and the patrol never leaves.
pub proof fn lemma_trail_complete_at_repeat(arena: Arena, start: Pose, i: nat, j: nat, n: nat)
    requires
        repeats_at(arena, start, i, j),
        j <= n,
    ensures
        arena.visited(start) == arena.trail(start, n),
        !arena.exits(start),
{
    lemma_repeat_never_exits(arena, start, i, j);
    assert forall|cell: (int, int)| arena.visited(start).contains(cell) implies arena.trail(
        start,
        n,
    ).contains(cell) by {
        let t = choose|t: nat| arena.stands_on(start, t, cell);
        lemma_repeat_folds_back(arena, start, i, j, t);
        let m = choose|m: nat| m < j && arena.after(start, t) == #[trigger] arena.after(start, m);
        assert(arena.stands_on(start, m, cell));
    }
    assert forall|cell: (int, int)| arena.trail(start, n).contains(cell) implies arena.visited(
        start,
    ).contains(cell) by {
        let m = choose|m: nat| m < n && arena.stands_on(start, m, cell);
        assert(arena.stands_on(start, m, cell));
    }
    assert(arena.visited(start) =~= arena.trail(start, n));
}

/// An obstruction added on a cell that the guard has not stood on by time
/// `n` leaves the first `n` moves as they were.
pub proof fn lemma_new_wall_keeps_past(arena: Arena, start: Pose, n: nat, cell: (int, int))
    requires
        arena.after(start, n) is Some,
        !arena.trail(start, n + 1).contains(cell),
    ensures
        arena.with_wall(cell).after(start, n) == arena.after(start, n),
    decreases n,
{
    if n > 0 {
        let earlier = (n - 1) as nat;
        assert(!arena.trail(start, earlier + 1).contains(cell)) by {
            if arena.trail(start, earlier + 1).contains(cell) {
                let m = choose|m: nat| m < earlier + 1 && arena.stands_on(start, m, cell);
                assert(arena.stands_on(start, m, cell));
            }
        }
        lemma_new_wall_keeps_past(arena, start, earlier, cell);
        let pose = arena.after(start, earlier)->0;
        if !arena.walls.contains(pose.ahead()) {
            assert(arena.stands_on(start, n, pose.ahead()));
        }
    }
}

/// Whether a patrol leaves the lattice can be told from any pose on its way.
pub proof fn lemma_exits_from_later(arena: Arena, start: Pose, n: nat)
    requires
        arena.after(start, n) is Some,
    ensures
        arena.exits(start) <==> arena.exits(arena.after(start, n)->0),
{
    let pose = arena.after(start, n)->0;
    if arena.exits(pose) {
        let k = choose|k: nat| arena.gone_after(pose, k);
        lemma_after_split(arena, start, n, k);
        assert(arena.gone_after(start, n + k));
    }
    if arena.exits(start) {
        let m = choose|m: nat| arena.gone_after(start, m);
        if m <= n {
            lemma_gone_persists(arena, start, m, n);
        }
        let k = (m - n) as nat;
        lemma_after_split(arena, start, n, k);
        assert(arena.gone_after(pose, k));
    }
}

/// Every patrol passes over the cell it starts on; a patrol that starts
/// inside a lattice passes over cells of the lattice only, so over finitely
/// many and at least one.
pub proof fn lemma_patrol_holds_start(arena: Arena, start: Pose)
    requires
        0 <= arena.height,
        0 <= arena.width,
        arena.contains(start.cell),
    ensures
        arena.visited(start).contains(start.cell),
        arena.visited(start).finite(),
        1 <= arena.visited(start).len() <= arena.height * arena.width,
{
    assert(arena.stands_on(start, 0, start.cell));
    let cells = arena.visited(start);
    assert forall|cell: (int, int)| #[trigger] cells.contains(cell) implies arena.contains(
        cell,
    ) by {
        let n = choose|n: nat| arena.stands_on(start, n, cell);
        lemma_stays_inside(arena, start, n);
    }
    lemma_cells_bounded(arena, cells);
    if cells.len() == 0 {
        assert(cells =~= Set::empty());
    }
}

/// The cell the guard starts on never counts as a trap, whatever an
/// obstruction there would do to the patrol.
pub proof fn lemma_start_is_no_trap(arena: Arena, start: Pose)
    ensures
        !arena.trap_cells(start).contains(start.cell),
{
}

} // verus!
