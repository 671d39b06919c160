//! Requests for a route, and the choice of the cell a route leads to.

use vstd::prelude::*;
use std::collections::VecDeque;
use crate::grid::{
    adjacent, blocked, free_neighbors, is_blocked, lemma_free_neighbors, open_neighbors,
};
use crate::map::Position;
use crate::routes::{connected, is_route, lemma_connected_search, route_end};
use crate::search::{search, search_path, MAX_A_STAR_ITERATIONS};

verus! {

/// The cells an agent still has to visit, the nearest first.
pub struct Path(pub VecDeque<Position>);

impl View for Path {
    type V = Seq<Position>;

    open spec fn view(&self) -> Seq<Position> {
        self.0@
    }
}

/// A request for a route to `target`. It is served once.
pub struct PathBuilder {
    pub target: Position,
}

impl Default for PathBuilder {
    fn default() -> (b: PathBuilder)
        ensures
            b.target == (Position { x: 0, y: 0, layer: 0 }),
    {
        PathBuilder { target: Position { x: 0, y: 0, layer: 0 } }
    }
}

/// `cells[i]` is as close to `start` as any of `cells`, and closer than all
/// that stand before it.
pub open spec fn is_nearest(cells: Seq<Position>, start: Position, i: int) -> bool {
    &&& 0 <= i < cells.len()
    &&& forall|j: int|
        0 <= j < cells.len() ==> cells[i].spec_distance_squared(start) <= (
        #[trigger] cells[j]).spec_distance_squared(start)
    &&& forall|j: int|
        0 <= j < i ==> (#[trigger] cells[j]).spec_distance_squared(start)
            > cells[i].spec_distance_squared(start)
}

/// The index of the cell of `cells` that is nearest to `start`, the first of
/// them where several are equally near.
pub open spec fn nearest(cells: Seq<Position>, start: Position) -> int {
    choose|i: int| is_nearest(cells, start, i)
}

/// The cell a route to `requested` really leads to: `requested` itself
/// unless it blocks, else its free neighbour nearest to `start`, and none if
/// it has no free neighbour.
pub open spec fn spec_resolve_target(
    obstacles: Seq<Position>,
    start: Position,
    requested: Position,
) -> Option<Position> {
    let around = free_neighbors(obstacles, requested);
    if !blocked(obstacles, requested) {
        Some(requested)
    } else if around.len() == 0 {
        None
    } else {
        Some(around[nearest(around, start)])
    }
}

/// Only one index can be the nearest.
pub proof fn lemma_nearest_unique(cells: Seq<Position>, start: Position, i: int, j: int)
    requires
        is_nearest(cells, start, i),
        is_nearest(cells, start, j),
    ensures
        i == j,
{
    if i < j {
        assert(cells[i].spec_distance_squared(start) > cells[j].spec_distance_squared(start));
    } else if j < i {
        assert(cells[j].spec_distance_squared(start) > cells[i].spec_distance_squared(start));
    }
}

/// Finds the cell nearest to `start`.
pub fn nearest_to(cells: &Vec<Position>, start: Position) -> (r: Option<usize>)
    ensures
        r is None <==> cells.len() == 0,
        r matches Some(i) ==> is_nearest(cells@, start, i as int) && i as int == nearest(
            cells@,
            start,
        ),
{
    if cells.len() == 0 {
        return None;
    }
    let mut best: usize = 0;
    let mut least: u128 = cells[0].wide_distance_squared(&start);
    let mut i: usize = 1;
    while i < cells.len()
        invariant
            1 <= i <= cells.len(),
            best < i,
            least == cells@[best as int].spec_distance_squared(start),
            forall|j: int|
                0 <= j < i ==> least <= (#[trigger] cells@[j]).spec_distance_squared(start),
            forall|j: int|
                0 <= j < best ==> (#[trigger] cells@[j]).spec_distance_squared(start) > least,
        decreases cells.len() - i,
    {
        let d: u128 = cells[i].wide_distance_squared(&start);
        if d < least {
            best = i;
            least = d;
        }
        i += 1;
    }
    proof {
        let chosen = nearest(cells@, start);
        assert(is_nearest(cells@, start, best as int));
        lemma_nearest_unique(cells@, start, best as int, chosen);
    }
    Some(best)
}

/// Decides where a route to `requested` leads.
pub fn resolve_target(obstacles: &Vec<Position>, start: Position, requested: Position) -> (r:
    Option<Position>)
    ensures
        r == spec_resolve_target(obstacles@, start, requested),
        !blocked(obstacles@, requested) ==> r == Some(requested),
        r is None <==> blocked(obstacles@, requested) && free_neighbors(
            obstacles@,
            requested,
        ).len() == 0,
        blocked(obstacles@, requested) && r is Some ==> exists|i: int|
            is_nearest(free_neighbors(obstacles@, requested), start, i) && r.unwrap()
                == free_neighbors(obstacles@, requested)[i],
{
    if !is_blocked(obstacles, requested) {
        return Some(requested);
    }
    let around = open_neighbors(obstacles, requested);
    match nearest_to(&around, start) {
        Some(i) => Some(around[i]),
        None => None,
    }
}

/// The route that a request made at `start` for `requested` is answered
/// with. There is none between two layers, none where `requested` blocks
/// together with all the cells around it, and none where the search gives up.
pub open spec fn plan(start: Position, requested: Position, obstacles: Seq<Position>) -> Option<
    Seq<Position>,
> {
    if start.layer != requested.layer {
        None
    } else {
        match spec_resolve_target(obstacles, start, requested) {
            Some(target) => search_path(start, target, obstacles),
            None => None,
        }
    }
}

/// Serves a request: settles where the route leads and searches it. `start`
/// is the cell the agent stands on, `blocks` are the cells that solid things
/// take up. The request is used up. `None` means that the agent gets no
/// route; nothing tells the reasons apart.
pub fn a_star(start: Position, request: PathBuilder, blocks: &Vec<Position>) -> (r: Option<Path>)
    ensures
        r is Some <==> plan(start, request.target, blocks@) is Some,
        r matches Some(path) ==> plan(start, request.target, blocks@) == Some(path@),
        start.layer != request.target.layer ==> r is None,
        blocked(blocks@, request.target) && free_neighbors(blocks@, request.target).len() == 0
            ==> r is None,
        r matches Some(path) ==> is_route(blocks@, start, path@) && path@.len() + 1
            <= MAX_A_STAR_ITERATIONS,
        r matches Some(path) ==> forall|i: int|
            0 <= i < path@.len() ==> (#[trigger] path@[i]).layer == start.layer,
        r matches Some(path) ==> {
            let target = spec_resolve_target(blocks@, start, request.target).unwrap();
            connected(blocks@, start, target) ==> route_end(start, path@) == target
        },
{
    if start.layer != request.target.layer {
        return None;
    }
    match resolve_target(blocks, start, request.target) {
        Some(target) => search(start, target, blocks),
        None => None,
    }
}

/// Among cells, one is the nearest.
pub proof fn lemma_nearest_exists(cells: Seq<Position>, start: Position)
    requires
        cells.len() > 0,
    ensures
        is_nearest(cells, start, nearest(cells, start)),
{
    lemma_nearest_upto(cells, start, cells.len() as int);
    assert(cells.take(cells.len() as int) == cells);
}

proof fn lemma_nearest_upto(cells: Seq<Position>, start: Position, k: int)
    requires
        0 < k <= cells.len(),
    ensures
        exists|b: int| is_nearest(cells.take(k), start, b),
    decreases k,
{
    let part = cells.take(k);
    if k == 1 {
        assert(is_nearest(part, start, 0));
    } else {
        lemma_nearest_upto(cells, start, k - 1);
        let before = cells.take(k - 1);
        let b = choose|b: int| is_nearest(before, start, b);
        assert forall|j: int| 0 <= j < k - 1 implies #[trigger] part[j] == before[j] by {}
        if part[k - 1].spec_distance_squared(start) < before[b].spec_distance_squared(start) {
            assert forall|j: int| 0 <= j < k - 1 implies (
            #[trigger] part[j]).spec_distance_squared(start) > part[k - 1].spec_distance_squared(
                start,
            ) by {
                assert(before[b].spec_distance_squared(start) <= before[j].spec_distance_squared(
                    start,
                ));
            }
            assert(is_nearest(part, start, k - 1));
        } else {
            assert forall|j: int| 0 <= j < part.len() implies part[b].spec_distance_squared(start)
                <= (#[trigger] part[j]).spec_distance_squared(start) by {
                if j < k - 1 {
                    assert(before[b].spec_distance_squared(start)
                        <= before[j].spec_distance_squared(start));
                }
            }
            assert forall|j: int| 0 <= j < b implies (#[trigger] part[j]).spec_distance_squared(
                start,
            ) > part[b].spec_distance_squared(start) by {
                assert(before[j].spec_distance_squared(start) > before[b].spec_distance_squared(
                    start,
                ));
            }
            assert(is_nearest(part, start, b));
        }
    }
}

/// The cell that a request resolves to is free and on the layer of the
/// requested cell. Where the requested cell blocks, it is a cell next to it,
/// and no free cell next to it is nearer to the start. Asked for again, from
/// the same start, it resolves to itself.
pub proof fn lemma_resolved(obstacles: Seq<Position>, start: Position, requested: Position)
    ensures
        spec_resolve_target(obstacles, start, requested) matches Some(target) ==> {
            &&& !blocked(obstacles, target)
            &&& target.layer == requested.layer
            &&& spec_resolve_target(obstacles, start, target) == Some(target)
            &&& blocked(obstacles, requested) ==> adjacent(requested, target) && forall|n: Position|
             #[trigger]
                adjacent(requested, n) && !blocked(obstacles, n)
                    ==> target.spec_distance_squared(start) <= n.spec_distance_squared(start)
        },
{
    let around = free_neighbors(obstacles, requested);
    lemma_free_neighbors(obstacles, requested);
    if blocked(obstacles, requested) && around.len() > 0 {
        lemma_nearest_exists(around, start);
        let i = nearest(around, start);
        let target = around[i];
        assert(around.contains(target));
        assert forall|n: Position| #[trigger]
            adjacent(requested, n) && !blocked(obstacles, n) implies target.spec_distance_squared(
            start,
        ) <= n.spec_distance_squared(start) by {
            assert(around.contains(n));
            let j = choose|j: int| 0 <= j < around.len() && around[j] == n;
            assert(around[i].spec_distance_squared(start) <= around[j].spec_distance_squared(
                start,
            ));
        }
    }
}

/// A request for the cell that an earlier request from the same start
/// resolved to is answered as the earlier one was.
pub proof fn lemma_request_again(obstacles: Seq<Position>, start: Position, requested: Position)
    ensures
        spec_resolve_target(obstacles, start, requested) matches Some(target) ==> plan(
            start,
            target,
            obstacles,
        ) == plan(start, requested, obstacles),
{
    lemma_resolved(obstacles, start, requested);
}

/// Where a route leads from the start to the cell that a request resolves
/// to, the route that answers the request ends at that cell.
pub proof fn lemma_plan_reaches(obstacles: Seq<Position>, start: Position, requested: Position)
    requires
        spec_resolve_target(obstacles, start, requested) matches Some(target) && connected(
            obstacles,
            start,
            target,
        ),
    ensures
        plan(start, requested, obstacles) matches Some(path) ==> Some(route_end(start, path))
            == spec_resolve_target(obstacles, start, requested),
{
    let target = spec_resolve_target(obstacles, start, requested).unwrap();
    lemma_connected_search(start, target, obstacles);
}

} // verus!
