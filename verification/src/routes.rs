//! Routes on the grid, and what a search has to do with them.

use vstd::prelude::*;
use crate::grid::{adjacent, blocked, free_neighbors, lemma_free_neighbors};
use crate::map::Position;
use crate::records::{
    lemma_close, lemma_expand, lemma_next_round, lemma_relax_all, lemma_relax_all_grows, sound,
    well_formed,
};
use crate::search::{
    close, has_open, initial, is_pick, known, outcome, pick, run, score, search_path,
    spec_expand, trail, Node, Search, MAX_A_STAR_ITERATIONS,
};

verus! {

/// The cell from which step `i` of a walk is made: `from` for the first step,
/// else the cell of the step before.
pub open spec fn before_step(from: Position, steps: Seq<Position>, i: int) -> Position {
    if i == 0 {
        from
    } else {
        steps[i - 1]
    }
}

/// The cell at which a walk from `from` ends.
pub open spec fn route_end(from: Position, steps: Seq<Position>) -> Position {
    if steps.len() == 0 {
        from
    } else {
        steps.last()
    }
}

/// `steps` is a walk from `from` over free cells: each step leads to a cell
/// next to the one before, on the same layer, that does not block.
pub open spec fn is_route(obstacles: Seq<Position>, from: Position, steps: Seq<Position>) -> bool {
    forall|i: int|
        0 <= i < steps.len() ==> adjacent(before_step(from, steps, i), #[trigger] steps[i])
            && !blocked(obstacles, steps[i])
}

/// Some route leads from `from` to `to`.
pub open spec fn connected(obstacles: Seq<Position>, from: Position, to: Position) -> bool {
    exists|steps: Seq<Position>| #[trigger]
        is_route(obstacles, from, steps) && route_end(from, steps) == to
}

/// The way that the records describe to one of them is a route from the
/// start to its cell, stays on the start's layer, and has no more steps than
/// the record's cost.
pub proof fn lemma_trail(
    nodes: Seq<Node>,
    i: int,
    start: Position,
    obstacles: Seq<Position>,
    rounds: int,
)
    requires
        sound(nodes, start, obstacles, rounds),
        0 <= i < nodes.len(),
    ensures
        is_route(obstacles, start, trail(nodes, i)),
        route_end(start, trail(nodes, i)) == nodes[i].pos,
        trail(nodes, i).len() <= nodes[i].cost,
        forall|j: int|
            0 <= j < trail(nodes, i).len() ==> (#[trigger] trail(nodes, i)[j]).layer
                == start.layer,
    decreases nodes[i].cost,
{
    if i != 0 {
        let up = nodes[i].parent as int;
        assert(up < nodes.len());
        lemma_trail(nodes, up, start, obstacles, rounds);
        let before = trail(nodes, up);
        let whole = trail(nodes, i);
        assert(whole == before.push(nodes[i].pos));
        assert forall|j: int| 0 <= j < whole.len() implies adjacent(
            before_step(start, whole, j),
            #[trigger] whole[j],
        ) && !blocked(obstacles, whole[j]) by {
            if j < before.len() {
                assert(whole[j] == before[j]);
                assert(before_step(start, whole, j) == before_step(start, before, j));
            } else {
                assert(before_step(start, whole, j) == route_end(start, before));
            }
        }
        assert forall|j: int| 0 <= j < whole.len() implies (#[trigger] whole[j]).layer
            == start.layer by {
            if j < before.len() {
                assert(whole[j] == before[j]);
            } else {
                assert(nodes[i].pos.layer == start.layer);
            }
        }
    } else {
        assert(trail(nodes, 0).len() == 0);
    }
}

/// The search knows every free cell next to the cell of the record at `i`.
pub open spec fn covers(nodes: Seq<Node>, obstacles: Seq<Position>, i: int) -> bool {
    forall|n: Position| #[trigger]
        adjacent(nodes[i].pos, n) && !blocked(obstacles, n) ==> known(nodes, n)
}

/// Every closed record is of a cell other than the target, and the search
/// knows the free cells around it.
pub open spec fn settled(nodes: Seq<Node>, target: Position, obstacles: Seq<Position>) -> bool {
    forall|i: int|
        0 <= i < nodes.len() && !(#[trigger] nodes[i]).open ==> nodes[i].pos != target && covers(
            nodes,
            obstacles,
            i,
        )
}

/// What holds of a search from `start` for `target` between two rounds.
pub open spec fn steady(
    s: Search,
    start: Position,
    target: Position,
    obstacles: Seq<Position>,
) -> bool {
    &&& 0 <= s.current < s.nodes.len()
    &&& well_formed(s.nodes, start, obstacles, s.rounds)
    &&& settled(s.nodes, target, obstacles)
    &&& s.rounds == 0 || s.nodes[s.current].cost < s.rounds
}

/// Expanding a record of a cell other than the target keeps the records
/// settled.
pub proof fn lemma_expand_settles(
    nodes: Seq<Node>,
    cur: int,
    start: Position,
    target: Position,
    obstacles: Seq<Position>,
    rounds: int,
)
    requires
        well_formed(nodes, start, obstacles, rounds),
        settled(nodes, target, obstacles),
        0 <= cur < nodes.len(),
        nodes[cur].pos != target,
        rounds < MAX_A_STAR_ITERATIONS,
    ensures
        settled(spec_expand(nodes, cur, obstacles), target, obstacles),
        spec_expand(nodes, cur, obstacles)[cur].cost == nodes[cur].cost,
        spec_expand(nodes, cur, obstacles).len() >= nodes.len(),
{
    let around = free_neighbors(obstacles, nodes[cur].pos);
    let closed = close(nodes, cur);
    let after = spec_expand(nodes, cur, obstacles);
    lemma_free_neighbors(obstacles, nodes[cur].pos);
    lemma_close(nodes, cur, start, obstacles, rounds);
    assert(nodes[cur].cost <= rounds);
    assert forall|i: int| 0 <= i < around.len() implies adjacent(
        closed[cur].pos,
        #[trigger] around[i],
    ) && !blocked(obstacles, around[i]) && closed[cur].pos != around[i] by {
        assert(around.contains(around[i]));
    }
    lemma_relax_all(closed, cur, around, around.len() as int, start, obstacles, rounds + 1);
    lemma_relax_all_grows(closed, cur, around, around.len() as int);
    assert forall|i: int| 0 <= i < after.len() && !(#[trigger] after[i]).open implies after[i].pos
        != target && covers(after, obstacles, i) by {
        assert(i < closed.len());
        assert(after[i] == closed[i]);
        assert forall|n: Position| #[trigger]
            adjacent(after[i].pos, n) && !blocked(obstacles, n) implies known(after, n) by {
            if i == cur {
                assert(around.contains(n));
                let j = choose|j: int| 0 <= j < around.len() && around[j] == n;
                assert(known(after, around[j]));
            } else {
                assert(!nodes[i].open);
                assert(covers(nodes, obstacles, i));
                assert(adjacent(nodes[i].pos, n));
                assert(known(nodes, n));
                let at = choose|at: int| 0 <= at < nodes.len() && (#[trigger] nodes[at]).pos == n;
                assert(after[at].pos == closed[at].pos);
            }
        }
    }
}

/// A steady search stays steady to its end, unless the rounds run out. It
/// ends with the target taken or with no record open.
pub proof fn lemma_run(s: Search, start: Position, target: Position, obstacles: Seq<Position>)
    requires
        steady(s, start, target, obstacles),
    ensures
        ({
            let end = run(s, target, obstacles);
            &&& s.rounds <= end.rounds <= MAX_A_STAR_ITERATIONS + 1
            &&& has_open(s.nodes) ==> end.rounds > s.rounds
            &&& end.rounds <= MAX_A_STAR_ITERATIONS ==> steady(end, start, target, obstacles) && (
            end.nodes[end.current].pos == target || !has_open(end.nodes))
        }),
    decreases MAX_A_STAR_ITERATIONS - s.rounds,
{
    if has_open(s.nodes) && s.rounds < MAX_A_STAR_ITERATIONS {
        let taken = pick(s.nodes, target);
        lemma_pick_exists(s.nodes, target);
        assert(s.nodes[taken].cost <= s.rounds);
        if s.nodes[taken].pos == target {
            lemma_next_round(s.nodes, start, obstacles, s.rounds);
        } else {
            let next = Search {
                nodes: spec_expand(s.nodes, taken, obstacles),
                current: taken,
                rounds: s.rounds + 1,
            };
            lemma_expand(s.nodes, taken, start, obstacles, s.rounds);
            lemma_expand_settles(s.nodes, taken, start, target, obstacles, s.rounds);
            lemma_run(next, start, target, obstacles);
        }
    }
}

/// While a record is open, one of them is the next to take.
pub proof fn lemma_pick_exists(nodes: Seq<Node>, target: Position)
    requires
        has_open(nodes),
    ensures
        is_pick(nodes, target, pick(nodes, target)),
{
    lemma_pick_upto(nodes, target, nodes.len() as int);
    let i = choose|i: int| 0 <= i < nodes.len() && (#[trigger] nodes[i]).open;
    let best = choose|b: int| is_pick(nodes.take(nodes.len() as int), target, b);
    assert(nodes.take(nodes.len() as int) == nodes);
}

proof fn lemma_pick_upto(nodes: Seq<Node>, target: Position, k: int)
    requires
        0 <= k <= nodes.len(),
    ensures
        has_open(nodes.take(k)) ==> exists|b: int| is_pick(nodes.take(k), target, b),
    decreases k,
{
    let part = nodes.take(k);
    if k > 0 && has_open(part) {
        lemma_pick_upto(nodes, target, k - 1);
        let before = nodes.take(k - 1);
        assert forall|j: int| 0 <= j < k - 1 implies #[trigger] part[j] == before[j] by {}
        if has_open(before) {
            let b = choose|b: int| is_pick(before, target, b);
            if part[k - 1].open && score(part[k - 1], target)
                < score(before[b], target) {
                assert forall|j: int| 0 <= j < k - 1 && (#[trigger] part[j]).open implies
                    score(part[j], target) > score(
                    part[k - 1],
                    target,
                ) by {
                    assert(before[j].open);
                }
                assert(is_pick(part, target, k - 1));
            } else {
                assert forall|j: int| 0 <= j < part.len() && (#[trigger] part[j]).open implies
                    score(part[b], target) <= score(
                    part[j],
                    target,
                ) by {
                    if j < k - 1 {
                        assert(before[j].open);
                    }
                }
                assert forall|j: int| 0 <= j < b && (#[trigger] part[j]).open implies
                    score(part[j], target) > score(
                    part[b],
                    target,
                ) by {
                    assert(before[j].open);
                }
                assert(is_pick(part, target, b));
            }
        } else {
            let i = choose|i: int| 0 <= i < part.len() && (#[trigger] part[i]).open;
            if i < k - 1 {
                assert(before[i].open);
                assert(false);
            }
            assert forall|j: int| 0 <= j < k - 1 implies !(#[trigger] part[j]).open by {
                if part[j].open {
                    assert(before[j].open);
                }
            }
            assert(is_pick(part, target, k - 1));
        }
    }
}

/// The search before its first round is steady.
pub proof fn lemma_initial(start: Position, target: Position, obstacles: Seq<Position>)
    ensures
        steady(initial(start), start, target, obstacles),
        has_open(initial(start).nodes),
{
    let nodes = initial(start).nodes;
    assert(nodes[0].open);
}

/// A route that a search yields really is one: it leads from the start over
/// free cells of the start's layer to the cell that the search took last,
/// and it has fewer steps than the search has rounds to spend on it.
pub proof fn lemma_search_path_is_route(
    start: Position,
    target: Position,
    obstacles: Seq<Position>,
)
    ensures
        search_path(start, target, obstacles) matches Some(path) ==> {
            let end = outcome(start, target, obstacles);
            &&& is_route(obstacles, start, path)
            &&& 0 <= end.current < end.nodes.len()
            &&& route_end(start, path) == end.nodes[end.current].pos
            &&& path.len() + 1 <= MAX_A_STAR_ITERATIONS
            &&& forall|j: int| 0 <= j < path.len() ==> (#[trigger] path[j]).layer == start.layer
        },
{
    lemma_initial(start, target, obstacles);
    lemma_run(initial(start), start, target, obstacles);
    let end = outcome(start, target, obstacles);
    if end.rounds <= MAX_A_STAR_ITERATIONS {
        lemma_trail(end.nodes, end.current, start, obstacles, end.rounds);
    }
}

/// In a settled search without an open record, every cell of a route from
/// the start has a record.
proof fn lemma_route_known(
    s: Search,
    start: Position,
    target: Position,
    obstacles: Seq<Position>,
    steps: Seq<Position>,
    k: int,
)
    requires
        steady(s, start, target, obstacles),
        !has_open(s.nodes),
        is_route(obstacles, start, steps),
        0 <= k <= steps.len(),
    ensures
        known(s.nodes, route_end(start, steps.take(k))),
    decreases k,
{
    if k == 0 {
        assert(s.nodes[0].pos == start);
    } else {
        lemma_route_known(s, start, target, obstacles, steps, k - 1);
        let from = route_end(start, steps.take(k - 1));
        assert(from == before_step(start, steps, k - 1));
        let at = choose|at: int| 0 <= at < s.nodes.len() && (#[trigger] s.nodes[at]).pos == from;
        assert(!s.nodes[at].open);
        assert(covers(s.nodes, obstacles, at));
        assert(adjacent(s.nodes[at].pos, steps[k - 1]));
        assert(steps.take(k).last() == steps[k - 1]);
    }
}

/// Where any route leads from the start to the target, a route that the
/// search yields ends at the target.
pub proof fn lemma_connected_search(start: Position, target: Position, obstacles: Seq<Position>)
    requires
        connected(obstacles, start, target),
    ensures
        search_path(start, target, obstacles) matches Some(path) ==> route_end(start, path)
            == target,
{
    lemma_initial(start, target, obstacles);
    lemma_run(initial(start), start, target, obstacles);
    lemma_search_path_is_route(start, target, obstacles);
    let end = outcome(start, target, obstacles);
    if end.rounds <= MAX_A_STAR_ITERATIONS && !has_open(end.nodes) {
        let steps = choose|steps: Seq<Position>| #[trigger]
            is_route(obstacles, start, steps) && route_end(start, steps) == target;
        lemma_route_known(end, start, target, obstacles, steps, steps.len() as int);
        assert(steps.take(steps.len() as int) == steps);
        let at = choose|at: int|
            0 <= at < end.nodes.len() && (#[trigger] end.nodes[at]).pos == target;
        assert(!end.nodes[at].open);
        assert(false);
    }
}

/// Where routes lead from the start to the target, but none with fewer
/// steps than a search has rounds, the search yields no route: it would have
/// to begin a round beyond the limit.
pub proof fn lemma_long_way(start: Position, target: Position, obstacles: Seq<Position>)
    requires
        connected(obstacles, start, target),
        forall|steps: Seq<Position>| #[trigger]
            is_route(obstacles, start, steps) && route_end(start, steps) == target ==> steps.len()
                + 1 > MAX_A_STAR_ITERATIONS,
    ensures
        search_path(start, target, obstacles) is None,
{
    lemma_connected_search(start, target, obstacles);
    lemma_search_path_is_route(start, target, obstacles);
    if let Some(path) = search_path(start, target, obstacles) {
        assert(is_route(obstacles, start, path));
    }
}

} // verus!
