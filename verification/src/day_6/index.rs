//! Sets of guard poses.

use vstd::prelude::*;
use crate::cells::LineIndex;
use crate::day_6::model::Pose;
use crate::day_6::{Guard, Orientation};

verus! {

/// A finite set of guard poses.
pub struct PoseSet {
    north: LineIndex,
    east: LineIndex,
    south: LineIndex,
    west: LineIndex,
}

impl View for PoseSet {
    type V = Set<Pose>;

    closed spec fn view(&self) -> Set<Pose> {
        Set::new(
            |pose: Pose|
                match pose.facing {
                    Orientation::North => self.north@.contains(pose.cell),
                    Orientation::East => self.east@.contains(pose.cell),
                    Orientation::South => self.south@.contains(pose.cell),
                    Orientation::West => self.west@.contains(pose.cell),
                },
        )
    }
}

impl PoseSet {
    pub closed spec fn wf(&self) -> bool {
        &&& self.north.wf()
        &&& self.east.wf()
        &&& self.south.wf()
        &&& self.west.wf()
    }

    /// The empty set.
    pub fn new() -> (set: Self)
        ensures
            set.wf(),
            set@ == Set::<Pose>::empty(),
    {
        let set = PoseSet {
            north: LineIndex::new(),
            east: LineIndex::new(),
            south: LineIndex::new(),
            west: LineIndex::new(),
        };
        assert(set@ =~= Set::<Pose>::empty());
        set
    }

    /// Adds the pose of `guard`; says whether it was missing before.
    pub fn insert(&mut self, guard: Guard) -> (fresh: bool)
        requires
            old(self).wf(),
        ensures
            final(self).wf(),
            final(self)@ == old(self)@.insert(guard@),
            fresh == !old(self)@.contains(guard@),
    {
        let position = guard.get_position();
        let fresh = match guard.orientation {
            Orientation::North => self.north.insert(position.0, position.1),
            Orientation::East => self.east.insert(position.0, position.1),
            Orientation::South => self.south.insert(position.0, position.1),
            Orientation::West => self.west.insert(position.0, position.1),
        };
        assert(self@ =~= old(self)@.insert(guard@));
        fresh
    }
}

} // verus!
