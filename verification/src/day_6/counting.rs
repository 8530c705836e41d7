//! How many cells and poses a bounded lattice can hold.

use vstd::prelude::*;
use vstd::arithmetic::div_mod::lemma_fundamental_div_mod_converse;
use vstd::set_lib::{lemma_int_range, lemma_len_subset, lemma_map_size_bound, set_int_range};
use crate::cells::{cell_of, lemma_box_bounded, lemma_cell_number};
use crate::day_6::Orientation;
use crate::day_6::model::{Arena, Pose};

verus! {

/// The orientation numbered `k` in clockwise order from north.
pub open spec fn facing_of(k: int) -> Orientation {
    if k == 0 {
        Orientation::North
    } else if k == 1 {
        Orientation::East
    } else if k == 2 {
        Orientation::South
    } else {
        Orientation::West
    }
}

/// The number of an orientation in clockwise order from north.
pub open spec fn facing_index(facing: Orientation) -> int {
    match facing {
        Orientation::North => 0,
        Orientation::East => 1,
        Orientation::South => 2,
        Orientation::West => 3,
    }
}

/// The pose numbered `k`: cells in row-major order, four orientations each.
pub open spec fn pose_of(width: int, k: int) -> Pose {
    Pose { cell: cell_of(width, k / 4), facing: facing_of(k % 4) }
}

/// A set of cells inside a lattice is finite and no larger than the lattice.
pub proof fn lemma_cells_bounded(arena: Arena, cells: Set<(int, int)>)
    requires
        0 <= arena.height,
        0 <= arena.width,
        forall|cell: (int, int)| #[trigger] cells.contains(cell) ==> arena.contains(cell),
    ensures
        cells.finite(),
        cells.len() <= arena.height * arena.width,
{
    lemma_box_bounded(arena.height, arena.width, cells);
}

/// A set of poses standing inside a lattice is finite and holds at most four
/// poses for each cell.
pub proof fn lemma_poses_bounded(arena: Arena, poses: Set<Pose>)
    requires
        0 <= arena.height,
        0 <= arena.width,
        forall|pose: Pose| #[trigger] poses.contains(pose) ==> arena.contains(pose.cell),
    ensures
        poses.finite(),
        poses.len() <= 4 * (arena.height * arena.width),
{
    let h = arena.height;
    let w = arena.width;
    if h == 0 || w == 0 {
        assert(poses =~= Set::empty());
        assert(h * w == 0) by (nonlinear_arith)
            requires
                h == 0 || w == 0,
        ;
    } else {
        assert(0 < h * w) by (nonlinear_arith)
            requires
                0 < h,
                0 < w,
        ;
        let numbers = set_int_range(0, 4 * (h * w));
        lemma_int_range(0, 4 * (h * w));
        let decode = |k: int| pose_of(w, k);
        let all = numbers.map(decode);
        lemma_map_size_bound(numbers, all, decode);
        assert forall|pose: Pose| poses.contains(pose) implies all.contains(pose) by {
            lemma_cell_number(h, w, pose.cell);
            let c = pose.cell.0 * w + pose.cell.1;
            let k = c * 4 + facing_index(pose.facing);
            lemma_fundamental_div_mod_converse(k, 4, c, facing_index(pose.facing));
            assert(numbers.contains(k));
            assert(decode(k) == pose);
        }
        lemma_len_subset(poses, all);
    }
}

} // verus!
