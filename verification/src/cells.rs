//! Sets of grid positions, kept line by line so that the nearest member
//! along a line can be found without looking at the other lines.

use std::collections::hash_map::Entry;
use std::collections::HashMap;
use std::collections::HashSet;
use vstd::arithmetic::div_mod::lemma_fundamental_div_mod_converse;
use vstd::prelude::*;
use vstd::set_lib::{lemma_int_range, lemma_len_subset, lemma_map_size_bound, set_int_range};

verus! {

/// The cell numbered `k` in row-major order on a grid `width` wide.
pub open spec fn cell_of(width: int, k: int) -> (int, int) {
    (k / width, k % width)
}

/// The row-major number of a cell inside a grid is below `height * width`
/// and leads back to the cell.
pub proof fn lemma_cell_number(height: int, width: int, cell: (int, int))
    requires
        0 <= cell.0 < height,
        0 <= cell.1 < width,
    ensures
        0 <= cell.0 * width + cell.1 < height * width,
        cell_of(width, cell.0 * width + cell.1) == cell,
{
    assert(0 <= cell.0 * width && cell.0 * width + width <= height * width) by (nonlinear_arith)
        requires
            0 <= cell.0 < height,
            0 < width,
    ;
    lemma_fundamental_div_mod_converse(cell.0 * width + cell.1, width, cell.0, cell.1);
}

/// A set of cells inside a grid of `height` rows and `width` columns is
/// finite and no larger than the grid.
pub proof fn lemma_box_bounded(height: int, width: int, cells: Set<(int, int)>)
    requires
        0 <= height,
        0 <= width,
        forall|cell: (int, int)| #[trigger]
            cells.contains(cell) ==> 0 <= cell.0 < height && 0 <= cell.1 < width,
    ensures
        cells.finite(),
        cells.len() <= height * width,
{
    let h = height;
    let w = width;
    if h == 0 || w == 0 {
        assert(cells =~= Set::empty());
        assert(h * w == 0) by (nonlinear_arith)
            requires
                h == 0 || w == 0,
        ;
    } else {
        assert(0 < h * w) by (nonlinear_arith)
            requires
                0 < h,
                0 < w,
        ;
        let numbers = set_int_range(0, h * w);
        lemma_int_range(0, h * w);
        let decode = |k: int| cell_of(w, k);
        let all = numbers.map(decode);
        lemma_map_size_bound(numbers, all, decode);
        assert forall|cell: (int, int)| cells.contains(cell) implies all.contains(cell) by {
            lemma_cell_number(h, w, cell);
            assert(numbers.contains(cell.0 * w + cell.1));
            assert(decode(cell.0 * w + cell.1) == cell);
        }
        lemma_len_subset(cells, all);
    }
}

/// The grid cell that a position of machine integers names.
pub open spec fn as_cell(position: (i64, i64)) -> (int, int) {
    (position.0 as int, position.1 as int)
}

/// A set of pairs `(line, offset)`: for each line the set of offsets on it.
pub struct LineIndex {
    lines: HashMap<i64, HashSet<i64>>,
    pairs: Ghost<Set<(int, int)>>,
}

/// Whether `lines` holds `offset` on `line`.
pub open spec fn on_line(lines: Map<i64, HashSet<i64>>, line: i64, offset: i64) -> bool {
    lines.contains_key(line) && lines[line]@.contains(offset)
}

impl View for LineIndex {
    type V = Set<(int, int)>;

    closed spec fn view(&self) -> Set<(int, int)> {
        self.pairs@
    }
}

impl LineIndex {
    /// The stored lines hold exactly the pairs of the view, and there are
    /// finitely many of them.
    pub closed spec fn wf(&self) -> bool {
        &&& self.pairs@.finite()
        &&& forall|line: i64, offset: i64| #[trigger]
            on_line(self.lines@, line, offset) <==> self.pairs@.contains(
                (line as int, offset as int),
            )
        &&& forall|pair: (int, int)| #[trigger]
            self.pairs@.contains(pair) ==> i64::MIN <= pair.0 <= i64::MAX && i64::MIN <= pair.1
                <= i64::MAX
    }

    /// A well-formed index is finite and holds only pairs of machine integers.
    pub proof fn lemma_wf_facts(&self)
        requires
            self.wf(),
        ensures
            self@.finite(),
            forall|pair: (int, int)| #[trigger]
                self@.contains(pair) ==> i64::MIN <= pair.0 <= i64::MAX && i64::MIN <= pair.1
                    <= i64::MAX,
    {
    }

    /// The empty index.
    pub fn new() -> (index: Self)
        ensures
            index.wf(),
            index@ == Set::<(int, int)>::empty(),
    {
        broadcast use vstd::std_specs::hash::group_hash_axioms;

        LineIndex { lines: HashMap::new(), pairs: Ghost(Set::empty()) }
    }

    /// Adds `offset` on `line`; says whether it was missing before.
    pub fn insert(&mut self, line: i64, offset: i64) -> (fresh: bool)
        requires
            old(self).wf(),
        ensures
            final(self).wf(),
            final(self)@ == old(self)@.insert((line as int, offset as int)),
            fresh == !old(self)@.contains((line as int, offset as int)),
    {
        broadcast use vstd::std_specs::hash::group_hash_axioms;

        let ghost before = self.lines@;
        assert(on_line(before, line, offset) <==> self.pairs@.contains(
            (line as int, offset as int),
        ));
        let fresh = self.lines.entry(line).or_insert(HashSet::new()).insert(offset);
        self.pairs = Ghost(self.pairs@.insert((line as int, offset as int)));
        proof {
            assert forall|l: i64, o: i64| #[trigger]
                on_line(self.lines@, l, o) <==> self.pairs@.contains((l as int, o as int)) by {
                assert(on_line(before, l, o) <==> old(self).pairs@.contains(
                    (l as int, o as int),
                ));
            }
        }
        fresh
    }

    /// Takes `offset` off `line`; says whether it was there.
    pub fn remove(&mut self, line: i64, offset: i64) -> (found: bool)
        requires
            old(self).wf(),
        ensures
            final(self).wf(),
            final(self)@ == old(self)@.remove((line as int, offset as int)),
            found == old(self)@.contains((line as int, offset as int)),
    {
        broadcast use vstd::std_specs::hash::group_hash_axioms;

        let ghost before = self.lines@;
        assert(on_line(before, line, offset) <==> self.pairs@.contains(
            (line as int, offset as int),
        ));
        let found = match self.lines.entry(line) {
            Entry::Occupied(mut offsets) => offsets.get_mut().remove(&offset),
            Entry::Vacant(_) => false,
        };
        self.pairs = Ghost(self.pairs@.remove((line as int, offset as int)));
        proof {
            assert forall|l: i64, o: i64| #[trigger]
                on_line(self.lines@, l, o) <==> self.pairs@.contains((l as int, o as int)) by {
                assert(on_line(before, l, o) <==> old(self).pairs@.contains(
                    (l as int, o as int),
                ));
            }
        }
        found
    }

    /// Whether `offset` is on `line`.
    pub fn contains(&self, line: i64, offset: i64) -> (found: bool)
        requires
            self.wf(),
        ensures
            found == self@.contains((line as int, offset as int)),
    {
        broadcast use vstd::std_specs::hash::group_hash_axioms;

        assert(on_line(self.lines@, line, offset) <==> self.pairs@.contains(
            (line as int, offset as int),
        ));
        match self.lines.get(&line) {
            Some(offsets) => offsets.contains(&offset),
            None => false,
        }
    }

    /// The greatest offset on `line` that is below `bound`, if there is one.
    pub fn nearest_below(&self, line: i64, bound: i64) -> (nearest: Option<i64>)
        requires
            self.wf(),
        ensures
            nearest is None ==> forall|o: int| o < bound ==> !self@.contains((line as int, o)),
            nearest matches Some(best) ==> {
                &&& best < bound
                &&& self@.contains((line as int, best as int))
                &&& forall|o: int| best < o < bound ==> !self@.contains((line as int, o))
            },
    {
        broadcast use vstd::std_specs::hash::group_hash_axioms;

        let mut nearest: Option<i64> = None;
        match self.lines.get(&line) {
            Some(offsets) => {
                for offset in it: offsets.iter()
                    invariant
                        offsets@ == self.lines@[line]@,
                        self.lines@.contains_key(line),
                        nearest is None ==> forall|k: int|
                            0 <= k < it.index() ==> *it.seq()[k] >= bound,
                        nearest matches Some(best) ==> {
                            &&& best < bound
                            &&& offsets@.contains(best)
                            &&& forall|k: int|
                                0 <= k < it.index() && *it.seq()[k] < bound ==> *it.seq()[k]
                                    <= best
                        },
                {
                    if *offset < bound {
                        match nearest {
                            None => {
                                nearest = Some(*offset);
                            },
                            Some(best) => {
                                if *offset > best {
                                    nearest = Some(*offset);
                                }
                            },
                        }
                    }
                }
                proof {
                    assert forall|o: int| o < bound && self@.contains((line as int, o)) implies (
                    nearest matches Some(best) && o <= best) by {
                        let o64 = o as i64;
                        assert(on_line(self.lines@, line, o64));
                        assert(offsets@.contains(o64));
                    }
                    if let Some(best) = nearest {
                        assert(on_line(self.lines@, line, best));
                    }
                }
            },
            None => {
                proof {
                    assert forall|o: int| o < bound implies !self@.contains((line as int, o)) by {
                        if self@.contains((line as int, o)) {
                            assert(on_line(self.lines@, line, o as i64));
                        }
                    }
                }
            },
        }
        nearest
    }

    /// The least offset on `line` that is above `bound`, if there is one.
    pub fn nearest_above(&self, line: i64, bound: i64) -> (nearest: Option<i64>)
        requires
            self.wf(),
        ensures
            nearest is None ==> forall|o: int| o > bound ==> !self@.contains((line as int, o)),
            nearest matches Some(best) ==> {
                &&& best > bound
                &&& self@.contains((line as int, best as int))
                &&& forall|o: int| bound < o < best ==> !self@.contains((line as int, o))
            },
    {
        broadcast use vstd::std_specs::hash::group_hash_axioms;

        let mut nearest: Option<i64> = None;
        match self.lines.get(&line) {
            Some(offsets) => {
                for offset in it: offsets.iter()
                    invariant
                        offsets@ == self.lines@[line]@,
                        self.lines@.contains_key(line),
                        nearest is None ==> forall|k: int|
                            0 <= k < it.index() ==> *it.seq()[k] <= bound,
                        nearest matches Some(best) ==> {
                            &&& best > bound
                            &&& offsets@.contains(best)
                            &&& forall|k: int|
                                0 <= k < it.index() && *it.seq()[k] > bound ==> *it.seq()[k]
                                    >= best
                        },
                {
                    if *offset > bound {
                        match nearest {
                            None => {
                                nearest = Some(*offset);
                            },
                            Some(best) => {
                                if *offset < best {
                                    nearest = Some(*offset);
                                }
                            },
                        }
                    }
                }
                proof {
                    assert forall|o: int| o > bound && self@.contains((line as int, o)) implies (
                    nearest matches Some(best) && o >= best) by {
                        let o64 = o as i64;
                        assert(on_line(self.lines@, line, o64));
                        assert(offsets@.contains(o64));
                    }
                    if let Some(best) = nearest {
                        assert(on_line(self.lines@, line, best));
                    }
                }
            },
            None => {
                proof {
                    assert forall|o: int| o > bound implies !self@.contains((line as int, o)) by {
                        if self@.contains((line as int, o)) {
                            assert(on_line(self.lines@, line, o as i64));
                        }
                    }
                }
            },
        }
        nearest
    }
}

/// A finite set of positions that knows how many it holds.
pub struct PositionSet {
    rows: LineIndex,
    count: usize,
}

impl View for PositionSet {
    type V = Set<(int, int)>;

    closed spec fn view(&self) -> Set<(int, int)> {
        self.rows@
    }
}

impl PositionSet {
    /// The count kept beside the positions is their number.
    pub closed spec fn wf(&self) -> bool {
        &&& self.rows.wf()
        &&& self.count == self.rows@.len()
    }

    /// A well-formed set is finite, and its size fits a machine integer.
    pub proof fn lemma_finite(&self)
        requires
            self.wf(),
        ensures
            self@.finite(),
            self@.len() <= usize::MAX,
    {
        self.rows.lemma_wf_facts();
    }

    /// The empty set.
    pub fn new() -> (set: Self)
        ensures
            set.wf(),
            set@ == Set::<(int, int)>::empty(),
    {
        PositionSet { rows: LineIndex::new(), count: 0 }
    }

    /// Adds `position`; says whether it was missing before.
    pub fn insert(&mut self, position: (i64, i64)) -> (fresh: bool)
        requires
            old(self).wf(),
            old(self)@.contains(as_cell(position)) || old(self)@.len() < usize::MAX,
        ensures
            final(self).wf(),
            final(self)@ == old(self)@.insert(as_cell(position)),
            fresh == !old(self)@.contains(as_cell(position)),
    {
        proof {
            self.rows.lemma_wf_facts();
        }
        let fresh = self.rows.insert(position.0, position.1);
        if fresh {
            self.count = self.count + 1;
        }
        fresh
    }

    /// Takes `position` out; says whether it was there.
    pub fn remove(&mut self, position: (i64, i64)) -> (found: bool)
        requires
            old(self).wf(),
        ensures
            final(self).wf(),
            final(self)@ == old(self)@.remove(as_cell(position)),
            found == old(self)@.contains(as_cell(position)),
    {
        proof {
            self.rows.lemma_wf_facts();
        }
        let found = self.rows.remove(position.0, position.1);
        if found {
            self.count = self.count - 1;
        }
        found
    }

    /// Whether `position` is in the set.
    pub fn contains(&self, position: (i64, i64)) -> (found: bool)
        requires
            self.wf(),
        ensures
            found == self@.contains(as_cell(position)),
    {
        self.rows.contains(position.0, position.1)
    }

    /// How many positions the set holds.
    pub fn len(&self) -> (count: usize)
        requires
            self.wf(),
        ensures
            count == self@.len(),
    {
        self.count
    }
}

} // verus!
