//! Garden plots on a map: plots of one plant that touch side by side form a
//! region, and a region costs its area times the length of its fence, or
//! times the count of the straight sides of its fence.

use vstd::prelude::*;
use crate::cells::{as_cell, lemma_box_bounded, LineIndex};
use crate::grid::{
    hit, lemma_partial_sum_bounded, lemma_sum_rows_ordered, lemma_sum_rows_raised, letter,
    read_before, reads_first, sum_cells, sum_grid, sum_rows,
};
use crate::text::{chars_of, lines_of, rows_of, split_lines, trim, trimmed, InputError};

verus! {

/// The plant on a plot, or `None` off the map.
pub open spec fn plant(rows: Seq<Seq<char>>, cell: (int, int)) -> Option<char> {
    letter(rows, cell.0, cell.1)
}

/// The plot `a` lies on the map and `b` holds the same plant.
pub open spec fn grows_same(rows: Seq<Seq<char>>, a: (int, int), b: (int, int)) -> bool {
    plant(rows, a) is Some && plant(rows, a) == plant(rows, b)
}

/// The neighbour of a plot: above for `t == 0`, then to the right, below,
/// and to the left for `t == 3`; `t` counts round in fours.
pub open spec fn beside(cell: (int, int), t: int) -> (int, int) {
    if t % 4 == 0 {
        (cell.0 - 1, cell.1)
    } else if t % 4 == 1 {
        (cell.0, cell.1 + 1)
    } else if t % 4 == 2 {
        (cell.0 + 1, cell.1)
    } else {
        (cell.0, cell.1 - 1)
    }
}

/// The two plots share a side.
pub open spec fn adjacent(a: (int, int), b: (int, int)) -> bool {
    exists|t: int| 0 <= t < 4 && #[trigger] beside(a, t) == b
}

/// Each plot of the path shares a side with the next and holds the same plant.
pub open spec fn linked(rows: Seq<Seq<char>>, path: Seq<(int, int)>) -> bool {
    forall|k: int|
        0 <= k < path.len() - 1 ==> adjacent(#[trigger] path[k], path[k + 1]) && grows_same(
            rows,
            path[k],
            path[k + 1],
        )
}

/// The path leads from `a` to `b` over plots of one plant.
pub open spec fn leads_to(
    rows: Seq<Seq<char>>,
    path: Seq<(int, int)>,
    a: (int, int),
    b: (int, int),
) -> bool {
    &&& path.len() > 0
    &&& path[0] == a
    &&& path.last() == b
    &&& plant(rows, a) is Some
    &&& linked(rows, path)
}

/// The plots `a` and `b` belong to one region: a path over plots of one
/// plant leads from the one to the other.
pub open spec fn joined(rows: Seq<Seq<char>>, a: (int, int), b: (int, int)) -> bool {
    exists|path: Seq<(int, int)>| leads_to(rows, path, a, b)
}

/// The side of the plot towards its neighbour `t` needs a fence.
pub open spec fn fenced(rows: Seq<Seq<char>>, cell: (int, int), t: int) -> bool {
    !grows_same(rows, cell, beside(cell, t))
}

/// The fence turns a corner at the plot between its neighbours `t` and
/// `t + 1`: outwards where both sides need a fence, inwards where neither
/// does but the plot across the corner holds another plant.
pub open spec fn cornered(rows: Seq<Seq<char>>, cell: (int, int), t: int) -> bool {
    if fenced(rows, cell, t) {
        fenced(rows, cell, t + 1)
    } else {
        let across = beside(beside(cell, t), t + 1);
        !fenced(rows, cell, t + 1) && plant(rows, across) is Some && plant(rows, across) != plant(
            rows,
            cell,
        )
    }
}

/// How many of the first `t` sides of the plot need a fence.
pub open spec fn edges_upto(rows: Seq<Seq<char>>, cell: (int, int), t: int) -> nat
    decreases t,
{
    if t <= 0 {
        0
    } else {
        edges_upto(rows, cell, t - 1) + hit(fenced(rows, cell, t - 1))
    }
}

/// At how many of the first `t` corners of the plot the fence turns.
pub open spec fn corners_upto(rows: Seq<Seq<char>>, cell: (int, int), t: int) -> nat
    decreases t,
{
    if t <= 0 {
        0
    } else {
        corners_upto(rows, cell, t - 1) + hit(cornered(rows, cell, t - 1))
    }
}

/// How many sides of the plot need a fence.
pub open spec fn edges(rows: Seq<Seq<char>>, cell: (int, int)) -> nat {
    edges_upto(rows, cell, 4)
}

/// At how many corners of the plot the fence turns.
pub open spec fn corners(rows: Seq<Seq<char>>, cell: (int, int)) -> nat {
    corners_upto(rows, cell, 4)
}

/// What a plot adds to a measure of a region: one to its area, its fenced
/// sides to its perimeter, its corners to the count of its sides.
pub enum Measure {
    Area,
    Perimeter,
    Sides,
}

/// What the plot adds to the measure.
pub open spec fn share(rows: Seq<Seq<char>>, measure: Measure, cell: (int, int)) -> nat {
    match measure {
        Measure::Area => 1,
        Measure::Perimeter => edges(rows, cell),
        Measure::Sides => corners(rows, cell),
    }
}

/// The measure taken over the plots of `plots`.
pub open spec fn measured(rows: Seq<Seq<char>>, measure: Measure, plots: Set<(int, int)>) -> nat {
    sum_grid(
        rows,
        |r: int, c: int|
            if plots.contains((r, c)) {
                share(rows, measure, (r, c))
            } else {
                0
            },
    )
}

/// The plots of the region of `a`.
pub open spec fn region(rows: Seq<Seq<char>>, a: (int, int)) -> Set<(int, int)> {
    Set::new(|b: (int, int)| joined(rows, a, b))
}

/// The plot is the first of its region in reading order.
pub open spec fn leads(rows: Seq<Seq<char>>, a: (int, int)) -> bool {
    plant(rows, a) is Some && forall|b: (int, int)| #[trigger]
        joined(rows, a, b) ==> reads_first(a, b)
}

/// The fence of the region of `a` as it counts for the price: the count of
/// its sides in bulk, its length else.
pub open spec fn fence(rows: Seq<Seq<char>>, a: (int, int), bulk: bool) -> nat {
    if bulk {
        measured(rows, Measure::Sides, region(rows, a))
    } else {
        measured(rows, Measure::Perimeter, region(rows, a))
    }
}

/// What the plot adds to the price of the fences: the price of its region
/// where it is the first plot of the region, nothing else.
pub open spec fn cost_at(rows: Seq<Seq<char>>, a: (int, int), bulk: bool) -> nat {
    if leads(rows, a) {
        measured(rows, Measure::Area, region(rows, a)) * fence(rows, a, bulk)
    } else {
        0
    }
}

/// The price of the fences of all regions.
pub open spec fn price(rows: Seq<Seq<char>>, bulk: bool) -> nat {
    sum_grid(rows, |r: int, c: int| cost_at(rows, (r, c), bulk))
}

/// The three measures of the region of `a` and its price fit.
pub open spec fn region_fits(rows: Seq<Seq<char>>, a: (int, int), bulk: bool) -> bool {
    &&& measured(rows, Measure::Area, region(rows, a)) <= u64::MAX
    &&& measured(rows, Measure::Perimeter, region(rows, a)) <= u64::MAX
    &&& measured(rows, Measure::Sides, region(rows, a)) <= u64::MAX
    &&& cost_at(rows, a, bulk) <= u64::MAX
}

/// The measures and the price of every region fit.
pub open spec fn regions_fit(rows: Seq<Seq<char>>, bulk: bool) -> bool {
    forall|a: (int, int)| #[trigger] leads(rows, a) ==> region_fits(rows, a, bulk)
}

/// A plot of the map belongs to its own region.
pub proof fn lemma_joined_itself(rows: Seq<Seq<char>>, a: (int, int))
    requires
        plant(rows, a) is Some,
    ensures
        joined(rows, a, a),
{
    assert(leads_to(rows, seq![a], a, a));
}

/// A region reaches over a shared side to a plot of the same plant.
pub proof fn lemma_joined_step(rows: Seq<Seq<char>>, a: (int, int), c: (int, int), n: (int, int))
    requires
        joined(rows, a, c),
        adjacent(c, n),
        grows_same(rows, c, n),
    ensures
        joined(rows, a, n),
{
    let path = choose|path: Seq<(int, int)>| leads_to(rows, path, a, c);
    let longer = path.push(n);
    assert forall|k: int| 0 <= k < longer.len() - 1 implies adjacent(
        #[trigger] longer[k],
        longer[k + 1],
    ) && grows_same(rows, longer[k], longer[k + 1]) by {
        if k < path.len() - 1 {
            assert(adjacent(path[k], path[k + 1]));
        }
    }
    assert(leads_to(rows, longer, a, n));
}

/// A region reaches every plot of a path that starts in it.
pub proof fn lemma_joined_along(rows: Seq<Seq<char>>, a: (int, int), path: Seq<(int, int)>, k: int)
    requires
        path.len() > 0,
        linked(rows, path),
        joined(rows, a, path[0]),
        0 <= k < path.len(),
    ensures
        joined(rows, a, path[k]),
    decreases k,
{
    if k > 0 {
        lemma_joined_along(rows, a, path, k - 1);
        assert(adjacent(path[k - 1], path[k - 1 + 1]));
        lemma_joined_step(rows, a, path[k - 1], path[k]);
    }
}

/// Plots joined to a plot that is joined to a third are joined to the third.
pub proof fn lemma_joined_on(rows: Seq<Seq<char>>, a: (int, int), b: (int, int), c: (int, int))
    requires
        joined(rows, a, b),
        joined(rows, b, c),
    ensures
        joined(rows, a, c),
{
    let path = choose|path: Seq<(int, int)>| leads_to(rows, path, b, c);
    lemma_joined_along(rows, a, path, path.len() - 1);
}

/// The plots of a path all hold the plant of its first plot, and are joined
/// back to it.
pub proof fn lemma_path_back(rows: Seq<Seq<char>>, path: Seq<(int, int)>, k: int)
    requires
        path.len() > 0,
        linked(rows, path),
        plant(rows, path[0]) is Some,
        0 <= k < path.len(),
    ensures
        joined(rows, path[k], path[0]),
        plant(rows, path[k]) == plant(rows, path[0]),
    decreases k,
{
    if k == 0 {
        lemma_joined_itself(rows, path[0]);
    } else {
        lemma_path_back(rows, path, k - 1);
        let here = path[k];
        let there = path[k - 1];
        assert(adjacent(path[k - 1], path[k - 1 + 1]));
        lemma_adjacent_back(there, here);
        lemma_joined_itself(rows, here);
        lemma_joined_step(rows, here, here, there);
        lemma_joined_on(rows, here, there, path[0]);
    }
}

/// Sharing a side goes both ways.
pub proof fn lemma_adjacent_back(a: (int, int), b: (int, int))
    requires
        adjacent(a, b),
    ensures
        adjacent(b, a),
{
    let t = choose|t: int| 0 <= t < 4 && #[trigger] beside(a, t) == b;
    assert(beside(b, (t + 2) % 4) == a);
}

/// Belonging to one region goes both ways, and the plots of a region hold
/// one plant.
pub proof fn lemma_joined_back(rows: Seq<Seq<char>>, a: (int, int), b: (int, int))
    requires
        joined(rows, a, b),
    ensures
        joined(rows, b, a),
        plant(rows, b) == plant(rows, a),
        plant(rows, b) is Some,
{
    let path = choose|path: Seq<(int, int)>| leads_to(rows, path, a, b);
    lemma_path_back(rows, path, path.len() - 1);
}

/// A set of plots that holds `a` and, with each of its plots, the
/// neighbours of the same plant, holds the region of `a`.
pub proof fn lemma_closed_holds_region(rows: Seq<Seq<char>>, plots: Set<(int, int)>, a: (int, int))
    requires
        plots.contains(a),
        forall|c: (int, int), t: int|
            plots.contains(c) && 0 <= t < 4 && grows_same(rows, c, #[trigger] beside(c, t))
                ==> plots.contains(beside(c, t)),
    ensures
        region(rows, a).subset_of(plots),
{
    assert forall|b: (int, int)| region(rows, a).contains(b) implies plots.contains(b) by {
        let path = choose|path: Seq<(int, int)>| leads_to(rows, path, a, b);
        lemma_closed_along(rows, plots, path, path.len() - 1);
    }
}

/// A set closed as above holds every plot of a path that starts in it.
pub proof fn lemma_closed_along(
    rows: Seq<Seq<char>>,
    plots: Set<(int, int)>,
    path: Seq<(int, int)>,
    k: int,
)
    requires
        path.len() > 0,
        linked(rows, path),
        plots.contains(path[0]),
        0 <= k < path.len(),
        forall|c: (int, int), t: int|
            plots.contains(c) && 0 <= t < 4 && grows_same(rows, c, #[trigger] beside(c, t))
                ==> plots.contains(beside(c, t)),
    ensures
        plots.contains(path[k]),
    decreases k,
{
    if k > 0 {
        lemma_closed_along(rows, plots, path, k - 1);
        assert(adjacent(path[k - 1], path[k - 1 + 1]));
        let t = choose|t: int| 0 <= t < 4 && #[trigger] beside(path[k - 1], t) == path[k];
        assert(grows_same(rows, path[k - 1], beside(path[k - 1], t)));
    }
}

/// The plots of the map.
pub open spec fn map_cells(rows: Seq<Seq<char>>) -> Set<(int, int)> {
    Set::new(|cell: (int, int)| plant(rows, cell) is Some)
}

/// The length of the longest of the first `n` rows.
pub open spec fn widest(rows: Seq<Seq<char>>, n: int) -> int
    decreases n,
{
    if n <= 0 {
        0
    } else if rows[n - 1].len() > widest(rows, n - 1) {
        rows[n - 1].len() as int
    } else {
        widest(rows, n - 1)
    }
}

/// No row among the first `n` is longer than the longest of them.
pub proof fn lemma_widest(rows: Seq<Seq<char>>, n: int, r: int)
    requires
        0 <= r < n,
    ensures
        rows[r].len() <= widest(rows, n),
        0 <= widest(rows, n),
    decreases n,
{
    if r < n - 1 {
        lemma_widest(rows, n - 1, r);
    } else if n > 1 {
        lemma_widest(rows, n - 1, 0);
    }
}

/// A map has finitely many plots.
pub proof fn lemma_map_finite(rows: Seq<Seq<char>>)
    ensures
        map_cells(rows).finite(),
{
    let width = widest(rows, rows.len() as int);
    if rows.len() > 0 {
        lemma_widest(rows, rows.len() as int, 0);
    }
    assert forall|cell: (int, int)| #[trigger] map_cells(rows).contains(cell) implies 0 <= cell.0
        < rows.len() && 0 <= cell.1 < width by {
        lemma_widest(rows, rows.len() as int, cell.0);
    }
    lemma_box_bounded(rows.len() as int, width, map_cells(rows));
}

/// Positions can name every plot of the map and its neighbours.
pub open spec fn fits(rows: Seq<Seq<char>>) -> bool {
    &&& rows.len() < i64::MAX
    &&& forall|r: int| 0 <= r < rows.len() ==> (#[trigger] rows[r]).len() < i64::MAX
}

/// The position is the cell of some element of the queue.
pub open spec fn queued(queue: Seq<(i64, i64)>, cell: (int, int)) -> bool {
    exists|k: int| 0 <= k < queue.len() && as_cell(#[trigger] queue[k]) == cell
}

/// More sides of a plot need no fewer fences, and no plot needs more than four.
pub proof fn lemma_edges_grow(rows: Seq<Seq<char>>, cell: (int, int), t: int, u: int)
    requires
        0 <= t <= u,
    ensures
        edges_upto(rows, cell, t) <= edges_upto(rows, cell, u) <= u,
        corners_upto(rows, cell, t) <= corners_upto(rows, cell, u) <= u,
    decreases u - t,
{
    if t < u {
        lemma_edges_grow(rows, cell, t, u - 1);
    } else {
        lemma_edges_bounded(rows, cell, u);
    }
}

/// The first `t` sides of a plot need no more than `t` fences.
pub proof fn lemma_edges_bounded(rows: Seq<Seq<char>>, cell: (int, int), t: int)
    requires
        0 <= t,
    ensures
        edges_upto(rows, cell, t) <= t,
        corners_upto(rows, cell, t) <= t,
    decreases t,
{
    if t > 0 {
        lemma_edges_bounded(rows, cell, t - 1);
    }
}

/// A measure taken over one plot more of the map is greater by the share
/// of that plot.
pub proof fn lemma_measured_more(
    rows: Seq<Seq<char>>,
    measure: Measure,
    plots: Set<(int, int)>,
    cell: (int, int),
)
    requires
        plant(rows, cell) is Some,
        !plots.contains(cell),
    ensures
        measured(rows, measure, plots.insert(cell)) == measured(rows, measure, plots) + share(
            rows,
            measure,
            cell,
        ),
{
    let wider = plots.insert(cell);
    let weight = |r: int, c: int|
        if plots.contains((r, c)) {
            share(rows, measure, (r, c))
        } else {
            0
        };
    let other = |r: int, c: int|
        if wider.contains((r, c)) {
            share(rows, measure, (r, c))
        } else {
            0
        };
    lemma_sum_rows_raised(rows, weight, other, rows.len() as int, cell, share(rows, measure, cell));
}

/// A measure taken over more plots is no smaller.
pub proof fn lemma_measured_grows(
    rows: Seq<Seq<char>>,
    measure: Measure,
    plots: Set<(int, int)>,
    wider: Set<(int, int)>,
)
    requires
        plots.subset_of(wider),
    ensures
        measured(rows, measure, plots) <= measured(rows, measure, wider),
{
    let weight = |r: int, c: int|
        if plots.contains((r, c)) {
            share(rows, measure, (r, c))
        } else {
            0
        };
    let other = |r: int, c: int|
        if wider.contains((r, c)) {
            share(rows, measure, (r, c))
        } else {
            0
        };
    lemma_sum_rows_ordered(rows, weight, other, rows.len() as int);
}

/// A measure taken over no plots is nothing.
pub proof fn lemma_measured_nothing(rows: Seq<Seq<char>>, measure: Measure)
    ensures
        measured(rows, measure, Set::empty()) == 0,
{
    let weight = |r: int, c: int|
        if Set::<(int, int)>::empty().contains((r, c)) {
            share(rows, measure, (r, c))
        } else {
            0
        };
    lemma_sum_rows_nothing(rows, weight, rows.len() as int);
}

/// A sum of weights that are nothing everywhere is nothing.
pub proof fn lemma_sum_rows_nothing(rows: Seq<Seq<char>>, weight: spec_fn(int, int) -> nat, n: int)
    requires
        forall|r: int, c: int| #[trigger] weight(r, c) == 0,
    ensures
        sum_rows(rows, weight, n) == 0,
    decreases n,
{
    if n > 0 {
        lemma_sum_rows_nothing(rows, weight, n - 1);
        lemma_sum_cells_nothing(weight, n - 1, rows[n - 1].len() as int);
    }
}

/// A sum over a row of weights that are nothing everywhere is nothing.
pub proof fn lemma_sum_cells_nothing(weight: spec_fn(int, int) -> nat, r: int, n: int)
    requires
        forall|r: int, c: int| #[trigger] weight(r, c) == 0,
    ensures
        sum_cells(weight, r, n) == 0,
    decreases n,
{
    if n > 0 {
        lemma_sum_cells_nothing(weight, r, n - 1);
    }
}

/// Where the search for the plots of a region stands.
pub struct Flood {
    /// The plots of the regions found before.
    pub other: Set<(int, int)>,
    /// The plots of the region that have been counted.
    pub done: Set<(int, int)>,
    /// The plot that is being looked at, if one is.
    pub current: Option<(int, int)>,
    /// The plots that wait to be looked at.
    pub queue: Seq<(i64, i64)>,
    /// All plots that have been met.
    pub seen: Set<(int, int)>,
}

/// The search for the region of `s` is in good order: the plots met are
/// those of the regions found before and those counted, looked at or
/// waiting; the latter all belong to the region of `s`, none of them twice;
/// and the neighbours of the same plant of the plots counted have been met.
#[verifier::opaque]
pub open spec fn sound(rows: Seq<Seq<char>>, s: (int, int), flood: Flood) -> bool {
    &&& plant(rows, s) is Some
    &&& !flood.other.contains(s)
    &&& flood.seen.subset_of(map_cells(rows))
    &&& forall|c: (int, int), b: (int, int)|
        flood.other.contains(c) && #[trigger] joined(rows, c, b) ==> flood.other.contains(b)
    &&& forall|x: (int, int)|
        flood.seen.contains(x) <==> flood.other.contains(x) || flood.done.contains(x)
            || flood.current == Some(x) || queued(flood.queue, x)
    &&& forall|x: (int, int)| flood.done.contains(x) ==> joined(rows, s, x)
    &&& flood.current matches Some(c) ==> joined(rows, s, c) && !flood.done.contains(c)
    &&& forall|k: int|
        0 <= k < flood.queue.len() ==> joined(rows, s, as_cell(#[trigger] flood.queue[k]))
            && !flood.done.contains(as_cell(flood.queue[k])) && flood.current != Some(
            as_cell(flood.queue[k]),
        )
    &&& forall|k1: int, k2: int|
        0 <= k1 < k2 < flood.queue.len() ==> as_cell(#[trigger] flood.queue[k1]) != as_cell(
            #[trigger] flood.queue[k2],
        )
    &&& forall|x: (int, int), t: int|
        flood.done.contains(x) && 0 <= t < 4 && grows_same(rows, x, #[trigger] beside(x, t))
            ==> flood.seen.contains(beside(x, t))
    &&& flood.done.contains(s) || flood.current == Some(s) || queued(flood.queue, s)
}

/// What is left to do of a search: it grows smaller with every plot that
/// is met and with every plot that is taken from the queue.
pub open spec fn toil(rows: Seq<Seq<char>>, flood: Flood) -> int {
    (2 * map_cells(rows).difference(flood.seen).len() + flood.queue.len()) as int
}

/// A search starts in good order with its first plot waiting, where what
/// was met before are whole regions, and the first plot.
pub proof fn lemma_flood_starts(rows: Seq<Seq<char>>, start: (i64, i64), held: Set<(int, int)>)
    requires
        plant(rows, as_cell(start)) is Some,
        held.contains(as_cell(start)),
        held.subset_of(map_cells(rows)),
        forall|c: (int, int), b: (int, int)|
            held.contains(c) && c != as_cell(start) && #[trigger] joined(rows, c, b)
                ==> held.contains(b) && b != as_cell(start),
    ensures
        sound(
            rows,
            as_cell(start),
            Flood {
                other: held.remove(as_cell(start)),
                done: Set::empty(),
                current: None,
                queue: seq![start],
                seen: held,
            },
        ),
{
    reveal(sound);
    let s = as_cell(start);
    let queue = seq![start];
    lemma_joined_itself(rows, s);
    assert(as_cell(queue[0]) == s);
    assert(queued(queue, s));
    assert forall|x: (int, int)| queued(queue, x) implies x == s by {
        let k = choose|k: int| 0 <= k < queue.len() && as_cell(#[trigger] queue[k]) == x;
    }
}

/// Taking the last plot from the queue to look at it keeps the search in
/// good order; the plot holds the plant of the region.
pub proof fn lemma_flood_pops(rows: Seq<Seq<char>>, s: (int, int), flood: Flood)
    requires
        sound(rows, s, flood),
        flood.current is None,
        flood.queue.len() > 0,
    ensures
        sound(
            rows,
            s,
            Flood {
                current: Some(as_cell(flood.queue.last())),
                queue: flood.queue.drop_last(),
                ..flood
            },
        ),
        plant(rows, as_cell(flood.queue.last())) == plant(rows, s),
        joined(rows, s, as_cell(flood.queue.last())),
{
    reveal(sound);
    let c = as_cell(flood.queue.last());
    let shorter = flood.queue.drop_last();
    assert(joined(rows, s, as_cell(flood.queue[flood.queue.len() - 1])));
    lemma_joined_back(rows, s, c);
    assert forall|x: (int, int)| queued(flood.queue, x) <==> x == c || queued(shorter, x) by {
        if queued(flood.queue, x) && x != c {
            let k = choose|k: int|
                0 <= k < flood.queue.len() && as_cell(#[trigger] flood.queue[k]) == x;
            assert(as_cell(shorter[k]) == x);
        }
        if queued(shorter, x) {
            let k = choose|k: int| 0 <= k < shorter.len() && as_cell(#[trigger] shorter[k]) == x;
            assert(as_cell(flood.queue[k]) == x);
        }
        if x == c {
            assert(as_cell(flood.queue[flood.queue.len() - 1]) == x);
        }
    }
    assert forall|k: int| 0 <= k < shorter.len() implies as_cell(#[trigger] shorter[k]) != c by {
        assert(as_cell(flood.queue[k]) != as_cell(flood.queue[flood.queue.len() - 1]));
    }
    assert forall|k: int| 0 <= k < shorter.len() implies joined(
        rows,
        s,
        as_cell(#[trigger] shorter[k]),
    ) && !flood.done.contains(as_cell(shorter[k])) by {
        assert(shorter[k] == flood.queue[k]);
    }
    assert forall|k1: int, k2: int| 0 <= k1 < k2 < shorter.len() implies as_cell(
        #[trigger] shorter[k1],
    ) != as_cell(#[trigger] shorter[k2]) by {
        assert(shorter[k1] == flood.queue[k1] && shorter[k2] == flood.queue[k2]);
    }
}

/// A neighbour of the same plant that has not been met joins the queue: the
/// search stays in good order and has less left to do.
pub proof fn lemma_flood_pushes(
    rows: Seq<Seq<char>>,
    s: (int, int),
    flood: Flood,
    t: int,
    next: (i64, i64),
)
    requires
        sound(rows, s, flood),
        flood.current is Some,
        0 <= t < 4,
        as_cell(next) == beside(flood.current->0, t),
        grows_same(rows, flood.current->0, as_cell(next)),
        !flood.seen.contains(as_cell(next)),
    ensures
        sound(
            rows,
            s,
            Flood {
                queue: flood.queue.push(next),
                seen: flood.seen.insert(as_cell(next)),
                ..flood
            },
        ),
        toil(
            rows,
            Flood {
                queue: flood.queue.push(next),
                seen: flood.seen.insert(as_cell(next)),
                ..flood
            },
        ) == toil(rows, flood) - 1,
{
    reveal(sound);
    let c = flood.current->0;
    let n = as_cell(next);
    let longer = flood.queue.push(next);
    let cells = map_cells(rows);
    lemma_map_finite(rows);
    assert(adjacent(c, n));
    lemma_joined_step(rows, s, c, n);
    assert(cells.difference(flood.seen).contains(n));
    assert(cells.difference(flood.seen.insert(n)) =~= cells.difference(flood.seen).remove(n));
    assert(as_cell(longer[flood.queue.len() as int]) == n);
    assert forall|x: (int, int)| queued(longer, x) <==> x == n || queued(flood.queue, x) by {
        if queued(longer, x) && x != n {
            let k = choose|k: int| 0 <= k < longer.len() && as_cell(#[trigger] longer[k]) == x;
            assert(as_cell(flood.queue[k]) == x);
        }
        if queued(flood.queue, x) {
            let k = choose|k: int|
                0 <= k < flood.queue.len() && as_cell(#[trigger] flood.queue[k]) == x;
            assert(as_cell(longer[k]) == x);
        }
    }
    assert forall|k: int| 0 <= k < longer.len() implies joined(
        rows,
        s,
        as_cell(#[trigger] longer[k]),
    ) && !flood.done.contains(as_cell(longer[k])) && flood.current != Some(
        as_cell(longer[k]),
    ) by {
        if k < flood.queue.len() {
            assert(longer[k] == flood.queue[k]);
        }
    }
    assert forall|k1: int, k2: int| 0 <= k1 < k2 < longer.len() implies as_cell(
        #[trigger] longer[k1],
    ) != as_cell(#[trigger] longer[k2]) by {
        assert(longer[k1] == flood.queue[k1]);
        if k2 == flood.queue.len() {
            assert(queued(flood.queue, as_cell(flood.queue[k1])));
        } else {
            assert(longer[k2] == flood.queue[k2]);
        }
    }
}

/// A neighbour of the same plant has been met, in a search in good order,
/// once it has been found in what was met or has joined the queue.
pub proof fn lemma_flood_counts(rows: Seq<Seq<char>>, s: (int, int), flood: Flood)
    requires
        sound(rows, s, flood),
        flood.current is Some,
        forall|t: int|
            0 <= t < 4 && grows_same(rows, flood.current->0, #[trigger] beside(flood.current->0, t))
                ==> flood.seen.contains(beside(flood.current->0, t)),
    ensures
        sound(
            rows,
            s,
            Flood { done: flood.done.insert(flood.current->0), current: None, ..flood },
        ),
        plant(rows, flood.current->0) is Some,
        !flood.done.contains(flood.current->0),
        flood.done.insert(flood.current->0).subset_of(region(rows, s)),
{
    reveal(sound);
    lemma_joined_back(rows, s, flood.current->0);
}

/// What has been counted of a region is part of the region, and the plot
/// that is looked at is part of it too.
pub proof fn lemma_flood_within(rows: Seq<Seq<char>>, s: (int, int), flood: Flood)
    requires
        sound(rows, s, flood),
        flood.current is Some,
    ensures
        plant(rows, flood.current->0) is Some,
        !flood.done.contains(flood.current->0),
        flood.done.insert(flood.current->0).subset_of(region(rows, s)),
{
    reveal(sound);
    lemma_joined_back(rows, s, flood.current->0);
}

/// When no plot waits any more, the plots counted are the region, and the
/// plots met are those met before and the region.
pub proof fn lemma_flood_ends(rows: Seq<Seq<char>>, s: (int, int), flood: Flood)
    requires
        sound(rows, s, flood),
        flood.current is None,
        flood.queue.len() == 0,
    ensures
        flood.done == region(rows, s),
        flood.seen == flood.other.insert(s).union(region(rows, s)),
{
    reveal(sound);
    let done = flood.done;
    assert forall|x: (int, int), t: int|
        done.contains(x) && 0 <= t < 4 && grows_same(
            rows,
            x,
            #[trigger] beside(x, t),
        ) implies done.contains(beside(x, t)) by {
        let n = beside(x, t);
        assert(adjacent(x, n));
        lemma_joined_step(rows, s, x, n);
        lemma_joined_back(rows, s, n);
        assert(!queued(flood.queue, n));
        if flood.other.contains(n) {
            assert(joined(rows, n, s));
        }
    }
    assert(!queued(flood.queue, s));
    lemma_closed_holds_region(rows, done, s);
    assert(done =~= region(rows, s));
    assert(flood.seen =~= flood.other.insert(s).union(region(rows, s)));
}

/// The plot `a` stands on the map before row `row`, column `col`, and `c`
/// belongs to its region.
pub open spec fn reached(
    rows: Seq<Seq<char>>,
    row: int,
    col: int,
    a: (int, int),
    c: (int, int),
) -> bool {
    plant(rows, a) is Some && read_before(a, row, col) && joined(rows, a, c)
}

/// The plots of the regions of all plots before row `row`, column `col`.
pub open spec fn covered(rows: Seq<Seq<char>>, row: int, col: int) -> Set<(int, int)> {
    Set::new(|c: (int, int)| exists|a: (int, int)| reached(rows, row, col, a, c))
}

/// Before the first plot no region has been covered.
pub proof fn lemma_covered_nothing(rows: Seq<Seq<char>>)
    ensures
        covered(rows, 0, 0) == Set::<(int, int)>::empty(),
{
    assert forall|c: (int, int)| !covered(rows, 0, 0).contains(c) by {
        if covered(rows, 0, 0).contains(c) {
            let a = choose|a: (int, int)| reached(rows, 0, 0, a, c);
        }
    }
    assert(covered(rows, 0, 0) =~= Set::<(int, int)>::empty());
}

/// What is covered at the end of a row is what is covered at the start of
/// the next.
pub proof fn lemma_covered_next_row(rows: Seq<Seq<char>>, row: int)
    requires
        0 <= row < rows.len(),
    ensures
        covered(rows, row, rows[row].len() as int) == covered(rows, row + 1, 0),
{
    let end = rows[row].len() as int;
    let next = row + 1;
    let here = covered(rows, row, end);
    let there = covered(rows, next, 0);
    assert forall|c: (int, int)| here.contains(c) implies there.contains(c) by {
        let a = choose|a: (int, int)| reached(rows, row, end, a, c);
        assert(reached(rows, next, 0, a, c));
    }
    assert forall|c: (int, int)| there.contains(c) implies here.contains(c) by {
        let a = choose|a: (int, int)| reached(rows, next, 0, a, c);
        assert(reached(rows, row, end, a, c));
    }
    assert(here =~= there);
}

/// What is covered are plots of the map, in whole regions.
pub proof fn lemma_covered_whole(rows: Seq<Seq<char>>, row: int, col: int)
    ensures
        covered(rows, row, col).subset_of(map_cells(rows)),
        forall|c: (int, int), b: (int, int)|
            covered(rows, row, col).contains(c) && #[trigger] joined(rows, c, b) ==> covered(
                rows,
                row,
                col,
            ).contains(b),
{
    assert forall|c: (int, int)| covered(rows, row, col).contains(c) implies map_cells(
        rows,
    ).contains(c) by {
        let a = choose|a: (int, int)| reached(rows, row, col, a, c);
        lemma_joined_back(rows, a, c);
    }
    assert forall|c: (int, int), b: (int, int)|
        covered(rows, row, col).contains(c) && #[trigger] joined(rows, c, b) implies covered(
        rows,
        row,
        col,
    ).contains(b) by {
        let a = choose|a: (int, int)| reached(rows, row, col, a, c);
        lemma_joined_on(rows, a, c, b);
        assert(reached(rows, row, col, a, b));
    }
}

/// A plot that has not been covered is the first of its region, and with
/// its region covered all is covered up to the next plot.
pub proof fn lemma_covered_fresh(rows: Seq<Seq<char>>, a: (int, int))
    requires
        plant(rows, a) is Some,
        !covered(rows, a.0, a.1).contains(a),
    ensures
        leads(rows, a),
        covered(rows, a.0, a.1 + 1) == covered(rows, a.0, a.1).union(region(rows, a)),
{
    assert forall|b: (int, int)| #[trigger] joined(rows, a, b) implies reads_first(a, b) by {
        if !reads_first(a, b) {
            lemma_joined_back(rows, a, b);
            let row = a.0;
            let col = a.1;
            assert(reached(rows, row, col, b, a));
        }
    }
    lemma_covered_more(rows, a);
}

/// With the region of a plot covered, all is covered up to the next plot.
pub proof fn lemma_covered_more(rows: Seq<Seq<char>>, a: (int, int))
    requires
        plant(rows, a) is Some,
    ensures
        covered(rows, a.0, a.1 + 1) == covered(rows, a.0, a.1).union(region(rows, a)),
{
    let row = a.0;
    let col = a.1;
    let next = a.1 + 1;
    let here = covered(rows, row, col);
    let there = covered(rows, row, next);
    assert forall|c: (int, int)| there.contains(c) implies here.union(region(rows, a)).contains(
        c,
    ) by {
        let first = choose|first: (int, int)| reached(rows, row, next, first, c);
        if first != a {
            assert(reached(rows, row, col, first, c));
        }
    }
    assert forall|c: (int, int)| here.union(region(rows, a)).contains(c) implies there.contains(
        c,
    ) by {
        if here.contains(c) {
            let first = choose|first: (int, int)| reached(rows, row, col, first, c);
            assert(reached(rows, row, next, first, c));
        } else {
            assert(reached(rows, row, next, a, c));
        }
    }
    assert(there =~= here.union(region(rows, a)));
}

/// A plot that has been covered is not the first of its region, and
/// nothing more is covered up to the next plot.
pub proof fn lemma_covered_stale(rows: Seq<Seq<char>>, a: (int, int))
    requires
        plant(rows, a) is Some,
        covered(rows, a.0, a.1).contains(a),
    ensures
        !leads(rows, a),
        covered(rows, a.0, a.1 + 1) == covered(rows, a.0, a.1),
{
    let row = a.0;
    let col = a.1;
    let first = choose|first: (int, int)| reached(rows, row, col, first, a);
    lemma_joined_back(rows, first, a);
    assert(joined(rows, a, first) && !reads_first(a, first));
    lemma_covered_more(rows, a);
    lemma_covered_whole(rows, a.0, a.1);
    assert(covered(rows, a.0, a.1).union(region(rows, a)) =~= covered(rows, a.0, a.1));
}

/// What `find_fence_price` owes for a map: the price of all fences, or
/// `None` where a measure of a region or a price does not fit.
pub open spec fn fitting_price(rows: Seq<Seq<char>>, bulk: bool) -> Option<u64> {
    if regions_fit(rows, bulk) && price(rows, bulk) <= u64::MAX {
        Some(price(rows, bulk) as u64)
    } else {
        None
    }
}

/// What the price of the fences of a text comes to: `TooLarge` where the
/// map is too large for positions or a measure or a price does not fit.
pub open spec fn answer_of(text: Seq<char>, bulk: bool) -> Result<u64, InputError> {
    let rows = lines_of(trimmed(text));
    if !fits(rows) {
        Err(InputError::TooLarge)
    } else {
        match fitting_price(rows, bulk) {
            Some(total) => Ok(total),
            None => Err(InputError::TooLarge),
        }
    }
}

/// What is seen of a plot in one direction.
pub struct Sight {
    /// The side towards the neighbour needs a fence.
    pub fenced: bool,
    /// The fence turns a corner between this neighbour and the next.
    pub cornered: bool,
    /// The neighbour.
    pub next: (i64, i64),
}

/// A map of garden plots, each marked with the letter of its plant.
pub struct FarmLand {
    pub land: Vec<Vec<char>>,
}

impl FarmLand {
    /// The rows of plots of the map.
    pub open spec fn rows(&self) -> Seq<Seq<char>> {
        rows_of(self.land)
    }

    /// The map without rows.
    pub fn new() -> (farm: Self)
        ensures
            farm.land@.len() == 0,
    {
        FarmLand { land: Vec::new() }
    }

    /// Whether `position` names a plot of the map.
    pub fn is_in_map(&self, position: (i64, i64)) -> (inside: bool)
        ensures
            inside == (plant(self.rows(), as_cell(position)) is Some),
            inside ==> position.0 <= usize::MAX && position.1 <= usize::MAX,
    {
        let (i, j) = position;
        0 <= i && (i as u64) < (self.land.len() as u64) && 0 <= j && (j as u64) < (
        self.land[i as usize].len() as u64)
    }

    /// Whether `position` names a plot of the map that holds `wanted`.
    fn holds(&self, position: (i64, i64), wanted: char) -> (found: bool)
        ensures
            found == (plant(self.rows(), as_cell(position)) == Some(wanted)),
    {
        self.is_in_map(position) && self.land[position.0 as usize][position.1 as usize] == wanted
    }

    /// The neighbour of `cell`: above for `t == 0`, then to the right,
    /// below, and to the left.
    fn neighbour(cell: (i64, i64), t: usize) -> (next: (i64, i64))
        requires
            i64::MIN <= beside(as_cell(cell), t as int).0 <= i64::MAX,
            i64::MIN <= beside(as_cell(cell), t as int).1 <= i64::MAX,
        ensures
            as_cell(next) == beside(as_cell(cell), t as int),
    {
        if t % 4 == 0 {
            (cell.0 - 1, cell.1)
        } else if t % 4 == 1 {
            (cell.0, cell.1 + 1)
        } else if t % 4 == 2 {
            (cell.0 + 1, cell.1)
        } else {
            (cell.0, cell.1 - 1)
        }
    }

    /// Looks from a plot of the plant `region_identifier` towards its
    /// neighbour `t`.
    fn look(&self, cell: (i64, i64), t: usize, region_identifier: char) -> (sight: Sight)
        requires
            fits(self.rows()),
            plant(self.rows(), as_cell(cell)) == Some(region_identifier),
            t < 4,
        ensures
            sight.fenced == fenced(self.rows(), as_cell(cell), t as int),
            sight.cornered == cornered(self.rows(), as_cell(cell), t as int),
            as_cell(sight.next) == beside(as_cell(cell), t as int),
    {
        let ghost rows = self.rows();
        assert(rows[cell.0 as int].len() < i64::MAX);
        let next = Self::neighbour(cell, t);
        let turn = Self::neighbour(cell, t + 1);
        let across = Self::neighbour(next, t + 1);
        let fenced = !self.holds(next, region_identifier);
        let turn_fenced = !self.holds(turn, region_identifier);
        let cornered = if fenced {
            turn_fenced
        } else {
            !turn_fenced && self.is_in_map(across) && self.land[across.0 as usize][across.1
                as usize] != region_identifier
        };
        Sight { fenced, cornered, next }
    }

    /// The area, the perimeter and the count of sides of the region of
    /// `start`, or `None` where one of them does not fit. The plots of the
    /// region are added to `visited`.
    pub fn find_region_area_perimeter_side(
        &self,
        start: (i64, i64),
        visited: &mut LineIndex,
    ) -> (found: Option<(u64, u64, u64)>)
        requires
            fits(self.rows()),
            plant(self.rows(), as_cell(start)) is Some,
            old(visited).wf(),
            old(visited)@.contains(as_cell(start)),
            old(visited)@.subset_of(map_cells(self.rows())),
            forall|c: (int, int), b: (int, int)|
                old(visited)@.contains(c) && c != as_cell(start) && #[trigger] joined(
                    self.rows(),
                    c,
                    b,
                ) ==> old(visited)@.contains(b) && b != as_cell(start),
        ensures
            final(visited).wf(),
            match found {
                Some(sizes) => {
                    &&& final(visited)@ == old(visited)@.union(
                        region(self.rows(), as_cell(start)),
                    )
                    &&& sizes.0 == measured(
                        self.rows(),
                        Measure::Area,
                        region(self.rows(), as_cell(start)),
                    )
                    &&& sizes.1 == measured(
                        self.rows(),
                        Measure::Perimeter,
                        region(self.rows(), as_cell(start)),
                    )
                    &&& sizes.2 == measured(
                        self.rows(),
                        Measure::Sides,
                        region(self.rows(), as_cell(start)),
                    )
                },
                None => {
                    ||| measured(
                        self.rows(),
                        Measure::Area,
                        region(self.rows(), as_cell(start)),
                    ) > u64::MAX
                    ||| measured(
                        self.rows(),
                        Measure::Perimeter,
                        region(self.rows(), as_cell(start)),
                    ) > u64::MAX
                    ||| measured(
                        self.rows(),
                        Measure::Sides,
                        region(self.rows(), as_cell(start)),
                    ) > u64::MAX
                },
            },
    {
        let ghost rows = self.rows();
        let ghost s = as_cell(start);
        let ghost other = visited@.remove(s);
        let ghost whole = region(rows, s);
        let mut area: u64 = 0;
        let mut perimeter: u64 = 0;
        let mut sides: u64 = 0;
        proof {
            assert(self.land.len() == rows.len());
            assert(self.land@[s.0].len() == rows[s.0].len());
        }
        let region_identifier = self.land[start.0 as usize][start.1 as usize];
        let mut queue: Vec<(i64, i64)> = vec![start];
        let ghost mut done: Set<(int, int)> = Set::empty();
        proof {
            lemma_map_finite(rows);
            lemma_flood_starts(rows, start, visited@);
            lemma_measured_nothing(rows, Measure::Area);
            lemma_measured_nothing(rows, Measure::Perimeter);
            lemma_measured_nothing(rows, Measure::Sides);
            assert(queue@ =~= seq![start]);
        }
        while queue.len() > 0
            invariant
                visited.wf(),
                rows == self.rows(),
                fits(rows),
                s == as_cell(start),
                whole == region(rows, s),
                plant(rows, s) == Some(region_identifier),
                sound(
                    rows,
                    s,
                    Flood { other, done, current: None, queue: queue@, seen: visited@ },
                ),
                area == measured(rows, Measure::Area, done),
                perimeter == measured(rows, Measure::Perimeter, done),
                sides == measured(rows, Measure::Sides, done),
            decreases toil(rows, Flood { other, done, current: None, queue: queue@, seen: visited@ }),
        {
            let ghost before = Flood { other, done, current: None, queue: queue@, seen: visited@ };
            proof {
                lemma_flood_pops(rows, s, before);
            }
            let cell = queue.pop().unwrap();
            let ghost c = as_cell(cell);
            let ghost perimeter_before = perimeter;
            let ghost sides_before = sides;
            let mut t: usize = 0;
            while t < 4
                invariant
                    t <= 4,
                    visited.wf(),
                    rows == self.rows(),
                    fits(rows),
                    s == as_cell(start),
                    whole == region(rows, s),
                    c == as_cell(cell),
                    plant(rows, c) == Some(region_identifier),
                    sound(
                        rows,
                        s,
                        Flood { other, done, current: Some(c), queue: queue@, seen: visited@ },
                    ),
                    forall|u: int|
                        0 <= u < t && grows_same(rows, c, #[trigger] beside(c, u))
                            ==> visited@.contains(beside(c, u)),
                    perimeter_before == measured(rows, Measure::Perimeter, done),
                    sides_before == measured(rows, Measure::Sides, done),
                    perimeter == perimeter_before + edges_upto(rows, c, t as int),
                    sides == sides_before + corners_upto(rows, c, t as int),
                    toil(
                        rows,
                        Flood { other, done, current: Some(c), queue: queue@, seen: visited@ },
                    ) < toil(rows, before),
                decreases 4 - t,
            {
                let ghost now = Flood {
                    other,
                    done,
                    current: Some(c),
                    queue: queue@,
                    seen: visited@,
                };
                let sight = self.look(cell, t, region_identifier);
                if sight.fenced {
                    match perimeter.checked_add(1) {
                        Some(more) => {
                            perimeter = more;
                        },
                        None => {
                            proof {
                                lemma_flood_within(rows, s, now);
                                lemma_edges_grow(rows, c, t + 1, 4);
                                lemma_measured_more(rows, Measure::Perimeter, done, c);
                                lemma_measured_grows(
                                    rows,
                                    Measure::Perimeter,
                                    done.insert(c),
                                    whole,
                                );
                            }
                            return None;
                        },
                    }
                } else if visited.insert(sight.next.0, sight.next.1) {
                    queue.push(sight.next);
                    proof {
                        lemma_flood_pushes(rows, s, now, t as int, sight.next);
                    }
                } else {
                    assert(visited@ =~= now.seen);
                }
                if sight.cornered {
                    match sides.checked_add(1) {
                        Some(more) => {
                            sides = more;
                        },
                        None => {
                            proof {
                                lemma_flood_within(
                                    rows,
                                    s,
                                    Flood {
                                        other,
                                        done,
                                        current: Some(c),
                                        queue: queue@,
                                        seen: visited@,
                                    },
                                );
                                lemma_edges_grow(rows, c, t + 1, 4);
                                lemma_measured_more(rows, Measure::Sides, done, c);
                                lemma_measured_grows(rows, Measure::Sides, done.insert(c), whole);
                            }
                            return None;
                        },
                    }
                }
                t += 1;
            }
            proof {
                lemma_flood_counts(
                    rows,
                    s,
                    Flood { other, done, current: Some(c), queue: queue@, seen: visited@ },
                );
                lemma_measured_more(rows, Measure::Area, done, c);
                lemma_measured_more(rows, Measure::Perimeter, done, c);
                lemma_measured_more(rows, Measure::Sides, done, c);
            }
            match area.checked_add(1) {
                Some(more) => {
                    area = more;
                },
                None => {
                    proof {
                        lemma_measured_grows(rows, Measure::Area, done.insert(c), whole);
                    }
                    return None;
                },
            }
            proof {
                done = done.insert(c);
            }
        }
        proof {
            lemma_flood_ends(
                rows,
                s,
                Flood { other, done, current: None, queue: queue@, seen: visited@ },
            );
            assert(visited@ =~= old(visited)@.union(whole));
        }
        Some((area, perimeter, sides))
    }

    /// The map that `s` draws: one row for each line of `s` without the
    /// white space at its two ends.
    pub fn from_text(s: &str) -> (farm: Self)
        ensures
            farm.rows() == lines_of(trimmed(s@)),
    {
        let chars = chars_of(s);
        let kept = trim(&chars);
        FarmLand { land: split_lines(&kept) }
    }

    /// Whether positions can name every plot of the map and its neighbours.
    pub fn is_fit(&self) -> (fit: bool)
        ensures
            fit == fits(self.rows()),
    {
        if self.land.len() as u64 >= i64::MAX as u64 {
            return false;
        }
        let mut k: usize = 0;
        while k < self.land.len()
            invariant
                k <= self.land.len(),
                self.land@.len() < i64::MAX,
                forall|r: int| 0 <= r < k ==> (#[trigger] self.rows()[r]).len() < i64::MAX,
            decreases self.land.len() - k,
        {
            if self.land[k].len() as u64 >= i64::MAX as u64 {
                assert(self.rows()[k as int].len() >= i64::MAX);
                return false;
            }
            k += 1;
        }
        true
    }

    /// The price of the fences of all regions: for each region its area
    /// times the count of the sides of its fence, in bulk, or times the
    /// length of its fence; `None` where a measure of a region or a price
    /// does not fit.
    pub fn find_fence_price(&self, bulk: bool) -> (total: Option<u64>)
        requires
            fits(self.rows()),
        ensures
            total == fitting_price(self.rows(), bulk),
    {
        let ghost rows = self.rows();
        let ghost weight = |r: int, c: int| cost_at(rows, (r, c), bulk);
        let mut visited = LineIndex::new();
        let mut total: u64 = 0;
        let mut i: usize = 0;
        proof {
            lemma_covered_nothing(rows);
        }
        while i < self.land.len()
            invariant
                i <= self.land.len(),
                rows == self.rows(),
                fits(rows),
                weight == (|r: int, c: int| cost_at(rows, (r, c), bulk)),
                visited.wf(),
                visited@ == covered(rows, i as int, 0),
                total == sum_rows(rows, weight, i as int),
                forall|a: (int, int)| #[trigger]
                    leads(rows, a) && read_before(a, i as int, 0) ==> region_fits(rows, a, bulk),
            decreases self.land.len() - i,
        {
            let row = &self.land[i];
            let mut j: usize = 0;
            while j < row.len()
                invariant
                    i < self.land.len(),
                    j <= row.len(),
                    row@ == rows[i as int],
                    rows == self.rows(),
                    fits(rows),
                    weight == (|r: int, c: int| cost_at(rows, (r, c), bulk)),
                    visited.wf(),
                    visited@ == covered(rows, i as int, j as int),
                    total == sum_rows(rows, weight, i as int) + sum_cells(
                        weight,
                        i as int,
                        j as int,
                    ),
                    forall|a: (int, int)| #[trigger]
                        leads(rows, a) && read_before(a, i as int, j as int) ==> region_fits(
                            rows,
                            a,
                            bulk,
                        ),
                decreases row.len() - j,
            {
                let ghost a = (i as int, j as int);
                let start = (i as i64, j as i64);
                let cost: u64 = if visited.insert(start.0, start.1) {
                    proof {
                        lemma_covered_fresh(rows, a);
                        lemma_covered_whole(rows, i as int, j as int);
                        lemma_joined_itself(rows, a);
                    }
                    let priced = match self.find_region_area_perimeter_side(start, &mut visited) {
                        Some((region_area, region_perimeter, region_sides)) => region_area.checked_mul(
                            if bulk {
                                region_sides
                            } else {
                                region_perimeter
                            },
                        ),
                        None => None,
                    };
                    match priced {
                        Some(cost) => {
                            assert(visited@ =~= covered(rows, i as int, j + 1));
                            cost
                        },
                        None => {
                            assert(!region_fits(rows, a, bulk));
                            return None;
                        },
                    }
                } else {
                    proof {
                        lemma_covered_stale(rows, a);
                        assert(visited@ =~= covered(rows, i as int, j as int));
                    }
                    0
                };
                assert(weight(i as int, j as int) == cost);
                proof {
                    lemma_partial_sum_bounded(rows, weight, i as int, j + 1);
                }
                match total.checked_add(cost) {
                    Some(more) => {
                        total = more;
                    },
                    None => {
                        return None;
                    },
                }
                j += 1;
            }
            proof {
                lemma_covered_next_row(rows, i as int);
            }
            i += 1;
        }
        proof {
            assert forall|a: (int, int)| #[trigger] leads(rows, a) implies region_fits(
                rows,
                a,
                bulk,
            ) by {
                assert(read_before(a, rows.len() as int, 0));
            }
        }
        Some(total)
    }
}

/// The price of the fences of the map that `input` draws: for each region
/// its area times the length of its fence.
pub fn find_fencing_price(input: &str) -> (total: Result<u64, InputError>)
    ensures
        total == answer_of(input@, false),
{
    let farm_land = FarmLand::from_text(input);
    if !farm_land.is_fit() {
        return Err(InputError::TooLarge);
    }
    match farm_land.find_fence_price(false) {
        Some(total) => Ok(total),
        None => Err(InputError::TooLarge),
    }
}

/// The price of the fences of the map that `input` draws when bought in
/// bulk: for each region its area times the count of the sides of its fence.
pub fn find_bulk_fencing_price(input: &str) -> (total: Result<u64, InputError>)
    ensures
        total == answer_of(input@, true),
{
    let farm_land = FarmLand::from_text(input);
    if !farm_land.is_fit() {
        return Err(InputError::TooLarge);
    }
    match farm_land.find_fence_price(true) {
        Some(total) => Ok(total),
        None => Err(InputError::TooLarge),
    }
}

} // verus!
