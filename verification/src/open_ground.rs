//! Searches where nothing blocks.
//!
//! On open ground the score of the search falls fastest along the beeline:
//! diagonal steps while both coordinates differ from the target's, straight
//! ones after that. The search follows it without a side step, so it needs one
//! round for each step and one more to see that it has arrived.

use vstd::prelude::*;
use crate::grid::{adjacent, blocked, chebyshev, free_neighbors, lemma_free_neighbors};
use crate::map::Position;
use crate::records::{
    distinct, lemma_close, lemma_expand, lemma_known_has_index, lemma_pick_unique,
    lemma_relax_all, lemma_relax_all_grows, reached_through, sound, well_formed,
};
use crate::routes::{
    before_step, connected, is_route, lemma_long_way, lemma_pick_exists, route_end,
};
use crate::search::{
    close, has_open, index_of, initial, is_pick, known, pick, run, score, search_path,
    spec_expand, trail, Node, Search, MAX_A_STAR_ITERATIONS,
};

verus! {

/// The coordinate `k` steps from `a` towards `b`, and `b` itself once it is
/// reached.
pub open spec fn approach(a: int, b: int, k: int) -> int {
    if b >= a {
        if a + k <= b {
            a + k
        } else {
            b
        }
    } else {
        if a - k >= b {
            a - k
        } else {
            b
        }
    }
}

/// The cell `k` steps along the beeline from `start` to `target`.
pub open spec fn along(start: Position, target: Position, k: int) -> Position {
    Position {
        x: approach(start.x as int, target.x as int, k) as i32,
        y: approach(start.y as int, target.y as int, k) as i32,
        layer: start.layer,
    }
}

/// The beeline from `start` to `target`, `start` left out: as many steps as
/// the Chebyshev distance of the two cells.
pub open spec fn beeline(start: Position, target: Position) -> Seq<Position> {
    Seq::new(chebyshev(start, target) as nat, |i: int| along(start, target, i + 1))
}

/// No walk is shorter than the Chebyshev distance of its ends.
pub proof fn lemma_route_length(obstacles: Seq<Position>, from: Position, steps: Seq<Position>)
    requires
        is_route(obstacles, from, steps),
    ensures
        chebyshev(from, route_end(from, steps)) <= steps.len(),
        route_end(from, steps).layer == from.layer,
    decreases steps.len(),
{
    if steps.len() > 0 {
        let before = steps.drop_last();
        assert forall|i: int| 0 <= i < before.len() implies adjacent(
            before_step(from, before, i),
            #[trigger] before[i],
        ) && !blocked(obstacles, before[i]) by {
            assert(before[i] == steps[i]);
            assert(before_step(from, before, i) == before_step(from, steps, i));
        }
        lemma_route_length(obstacles, from, before);
        let last = steps.len() - 1;
        assert(adjacent(before_step(from, steps, last), steps[last]));
        assert(before_step(from, steps, last) == route_end(from, before));
    }
}

/// Each step of the beeline leads to the next cell and one step closer to
/// the target, which is `chebyshev(start, target)` steps away.
pub proof fn lemma_along(start: Position, target: Position, k: int)
    requires
        start.layer == target.layer,
        0 <= k <= chebyshev(start, target),
    ensures
        chebyshev(along(start, target, k), target) == chebyshev(start, target) - k,
        along(start, target, 0) == start,
        along(start, target, chebyshev(start, target)) == target,
        k < chebyshev(start, target) ==> adjacent(
            along(start, target, k),
            along(start, target, k + 1),
        ),
        along(start, target, k).layer == target.layer,
{
}

/// Of two coordinates next to `a` or equal to it, the one towards `b` is
/// the closest to `b`, and no other is as close.
proof fn lemma_axis(a: int, b: int, u: int)
    requires
        a - 1 <= u <= a + 1,
    ensures
        (u - b) * (u - b) >= (approach(a, b, 1) - b) * (approach(a, b, 1) - b),
        u != approach(a, b, 1) ==> (u - b) * (u - b) > (approach(a, b, 1) - b) * (approach(a, b, 1)
            - b),
        (approach(a, b, 1) - b) * (approach(a, b, 1) - b) >= 0,
{
    let best = approach(a, b, 1) - b;
    let d = u - b;
    assert(best * best >= 0) by (nonlinear_arith);
    if b > a {
        assert(best <= 0 && (d == best || d == best - 1 || d == best - 2));
        assert(d * d >= best * best && (d != best ==> d * d > best * best)) by (nonlinear_arith)
            requires
                best <= 0,
                d == best || d == best - 1 || d == best - 2,
        ;
    } else if b < a {
        assert(best >= 0 && (d == best || d == best + 1 || d == best + 2));
        assert(d * d >= best * best && (d != best ==> d * d > best * best)) by (nonlinear_arith)
            requires
                best >= 0,
                d == best || d == best + 1 || d == best + 2,
        ;
    } else {
        assert(best == 0);
        assert(d * d >= best * best && (d != best ==> d * d > best * best)) by (nonlinear_arith)
            requires
                best == 0,
        ;
    }
    assert((u - b) * (u - b) == d * d);
    assert((approach(a, b, 1) - b) * (approach(a, b, 1) - b) == best * best);
}

/// Among the cells around a cell of the beeline, the next cell of the beeline
/// is the closest to the target, and no other is as close; the cell itself
/// is not as close either.
pub proof fn lemma_beeline_leads(start: Position, target: Position, k: int, n: Position)
    requires
        start.layer == target.layer,
        0 <= k < chebyshev(start, target),
        adjacent(along(start, target, k), n) || n == along(start, target, k),
        n != along(start, target, k + 1),
    ensures
        n.spec_distance_squared(target) > along(start, target, k + 1).spec_distance_squared(target),
{
    let here = along(start, target, k);
    let next = along(start, target, k + 1);
    assert(next.x == approach(here.x as int, target.x as int, 1));
    assert(next.y == approach(here.y as int, target.y as int, 1));
    lemma_axis(here.x as int, target.x as int, n.x as int);
    lemma_axis(here.y as int, target.y as int, n.y as int);
    assert(n.x != next.x || n.y != next.y);
}

/// The search is on course after `k` rounds: it has expanded the first `k`
/// cells of the beeline, the record at `head` is of the next, and no other
/// open record has a score as low.
pub open spec fn on_course(
    s: Search,
    start: Position,
    target: Position,
    k: int,
    head: int,
) -> bool {
    &&& 0 <= k <= chebyshev(start, target)
    &&& s.rounds == k
    &&& well_formed(s.nodes, start, Seq::<Position>::empty(), k)
    &&& 0 <= head < s.nodes.len()
    &&& s.nodes[head].pos == along(start, target, k)
    &&& s.nodes[head].cost == k
    &&& s.nodes[head].open
    &&& trail(s.nodes, head) == beeline(start, target).take(k)
    &&& forall|j: int|
        0 <= j < s.nodes.len() && j != head && (#[trigger] s.nodes[j]).open ==> score(
            s.nodes[j],
            target,
        ) > k + along(start, target, k).spec_distance_squared(target)
    &&& forall|j: int|
        0 <= j < s.nodes.len() && !(#[trigger] s.nodes[j]).open ==> chebyshev(
            s.nodes[j].pos,
            target,
        ) > chebyshev(start, target) - k
}

/// A search on course takes the record of the beeline next.
proof fn lemma_head_is_taken(s: Search, start: Position, target: Position, k: int, head: int)
    requires
        on_course(s, start, target, k, head),
    ensures
        has_open(s.nodes),
        pick(s.nodes, target) == head,
{
    assert(s.nodes[head].open);
    assert(is_pick(s.nodes, target, head));
    lemma_pick_exists(s.nodes, target);
    lemma_pick_unique(s.nodes, target, head, pick(s.nodes, target));
}

/// The way to a record does not change where the records before it keep
/// their cells, costs and parents.
proof fn lemma_trail_kept(
    before: Seq<Node>,
    after: Seq<Node>,
    i: int,
    start: Position,
    obstacles: Seq<Position>,
    rounds: int,
)
    requires
        sound(before, start, obstacles, rounds),
        0 <= i < before.len() <= after.len(),
        forall|j: int|
            0 <= j < before.len() ==> (#[trigger] after[j]).pos == before[j].pos && after[j].cost
                == before[j].cost && after[j].parent == before[j].parent,
    ensures
        trail(after, i) == trail(before, i),
    decreases before[i].cost,
{
    if i != 0 {
        let up = before[i].parent as int;
        assert(up < before.len());
        assert(after[up].cost == before[up].cost);
        lemma_trail_kept(before, after, up, start, obstacles, rounds);
    } else {
        assert(after[0].cost == before[0].cost);
    }
}

/// One round takes a search on course one step along the beeline.
proof fn lemma_course_step(
    s: Search,
    start: Position,
    target: Position,
    k: int,
    head: int,
) -> (next_head: int)
    requires
        on_course(s, start, target, k, head),
        start.layer == target.layer,
        k < chebyshev(start, target),
        chebyshev(start, target) + 1 <= MAX_A_STAR_ITERATIONS,
    ensures
        on_course(
            Search {
                nodes: spec_expand(s.nodes, head, Seq::<Position>::empty()),
                current: head,
                rounds: k + 1,
            },
            start,
            target,
            k + 1,
            next_head,
        ),
{
    let none = Seq::<Position>::empty();
    let nodes = s.nodes;
    let here = along(start, target, k);
    let there = along(start, target, k + 1);
    let around = free_neighbors(none, here);
    let closed = close(nodes, head);
    let after = spec_expand(nodes, head, none);
    lemma_along(start, target, k);
    lemma_along(start, target, k + 1);
    lemma_free_neighbors(none, here);
    lemma_close(nodes, head, start, none, k);
    lemma_expand(nodes, head, start, none, k);
    assert forall|i: int| 0 <= i < around.len() implies adjacent(
        closed[head].pos,
        #[trigger] around[i],
    ) && !blocked(none, around[i]) && closed[head].pos != around[i] by {
        assert(around.contains(around[i]));
    }
    lemma_relax_all(closed, head, around, around.len() as int, start, none, k + 1);
    lemma_relax_all_grows(closed, head, around, around.len() as int);
    // No record changes: none costs more than one step beyond the head.
    assert forall|i: int| 0 <= i < closed.len() implies #[trigger] after[i] == closed[i] by {
        assert(nodes[i].cost <= k);
    }
    // The next cell of the beeline is new to the search.
    assert(around.contains(there));
    let slot = choose|slot: int| 0 <= slot < around.len() && around[slot] == there;
    assert(known(after, around[slot]));
    lemma_known_has_index(after, there);
    let next_head = index_of(after, there);
    if next_head < nodes.len() {
        assert(after[next_head] == closed[next_head]);
        assert(next_head != head);
        lemma_beeline_leads(start, target, k, here);
        if nodes[next_head].open {
            assert(score(nodes[next_head], target) > k + here.spec_distance_squared(target));
            assert(nodes[next_head].cost <= k);
            assert(false);
        } else {
            assert(chebyshev(nodes[next_head].pos, target) > chebyshev(start, target) - k);
            assert(false);
        }
    }
    assert(reached_through(after[next_head], head, k));
    // The way to it is the beeline so far and one step more.
    assert(trail(after, next_head) == beeline(start, target).take(k + 1)) by {
        assert forall|j: int| 0 <= j < nodes.len() implies (#[trigger] after[j]).pos
            == nodes[j].pos && after[j].cost == nodes[j].cost && after[j].parent
            == nodes[j].parent by {
            assert(after[j] == closed[j]);
        }
        lemma_trail_kept(nodes, after, head, start, none, k);
        assert(after[head].cost == k);
        assert(trail(after, next_head) == trail(after, head).push(there));
        assert(beeline(start, target)[k] == there);
        assert(beeline(start, target).take(k + 1) == beeline(start, target).take(k).push(there));
    }
    // Every other open record ranks behind it.
    lemma_beeline_leads(start, target, k, here);
    assert forall|j: int|
        0 <= j < after.len() && j != next_head && (#[trigger] after[j]).open implies score(
        after[j],
        target,
    ) > k + 1 + there.spec_distance_squared(target) by {
        if j < nodes.len() {
            assert(after[j] == closed[j]);
            assert(j != head);
            assert(nodes[j].open);
        } else {
            assert(reached_through(after[j], head, k));
            let from = choose|from: int|
                0 <= from < around.len() && #[trigger] around[from] == after[j].pos;
            assert(around.contains(around[from]));
            assert(distinct(after));
            if j < next_head {
                assert(after[j].pos != after[next_head].pos);
            } else {
                assert(after[next_head].pos != after[j].pos);
            }
            lemma_beeline_leads(start, target, k, after[j].pos);
        }
    }
    // The closed records lie further from the target than the cells to come.
    assert forall|j: int| 0 <= j < after.len() && !(#[trigger] after[j]).open implies chebyshev(
        after[j].pos,
        target,
    ) > chebyshev(start, target) - (k + 1) by {
        assert(j < nodes.len());
        assert(after[j] == closed[j]);
        if j != head {
            assert(!nodes[j].open);
        }
    }
    next_head
}

/// A search on course ends one round after the last step of the beeline,
/// with the beeline as the way to the record it took last.
proof fn lemma_course(s: Search, start: Position, target: Position, k: int, head: int)
    requires
        on_course(s, start, target, k, head),
        start.layer == target.layer,
        chebyshev(start, target) + 1 <= MAX_A_STAR_ITERATIONS,
    ensures
        ({
            let end = run(s, target, Seq::<Position>::empty());
            &&& end.rounds == chebyshev(start, target) + 1
            &&& trail(end.nodes, end.current) == beeline(start, target)
        }),
    decreases chebyshev(start, target) - k,
{
    let none = Seq::<Position>::empty();
    lemma_head_is_taken(s, start, target, k, head);
    lemma_along(start, target, k);
    if k < chebyshev(start, target) {
        let next = Search { nodes: spec_expand(s.nodes, head, none), current: head, rounds: k + 1 };
        let next_head = lemma_course_step(s, start, target, k, head);
        assert(s.nodes[head].pos != target);
        assert(run(s, target, none) == run(next, target, none));
        lemma_course(next, start, target, k + 1, next_head);
    } else {
        assert(s.nodes[head].pos == target);
        assert(beeline(start, target).take(k) == beeline(start, target));
    }
}

/// Where nothing blocks, a search between two cells of one layer that are
/// fewer steps apart than the search has rounds yields the beeline: a route
/// that ends at the target and is as short as a route can be.
pub proof fn lemma_open_ground(start: Position, target: Position)
    requires
        start.layer == target.layer,
        chebyshev(start, target) + 1 <= MAX_A_STAR_ITERATIONS,
    ensures
        search_path(start, target, Seq::<Position>::empty()) == Some(beeline(start, target)),
        beeline(start, target).len() == chebyshev(start, target),
        route_end(start, beeline(start, target)) == target,
        forall|steps: Seq<Position>|
            is_route(Seq::<Position>::empty(), start, steps) && route_end(start, steps) == target
                ==> beeline(start, target).len() <= #[trigger] steps.len(),
{
    let none = Seq::<Position>::empty();
    let s = initial(start);
    assert(s.nodes[0].open);
    assert(trail(s.nodes, 0) == Seq::<Position>::empty());
    assert(beeline(start, target).take(0) == Seq::<Position>::empty());
    assert(on_course(s, start, target, 0, 0));
    lemma_course(s, start, target, 0, 0);
    lemma_along(start, target, chebyshev(start, target));
    assert forall|steps: Seq<Position>|
        is_route(none, start, steps) && route_end(start, steps) == target implies beeline(
        start,
        target,
    ).len() <= #[trigger] steps.len() by {
        lemma_route_length(none, start, steps);
    }
}

/// Where nothing blocks, a search between two cells of one layer that are
/// as many steps apart as the search has rounds, or more, yields no route.
pub proof fn lemma_open_ground_too_far(start: Position, target: Position)
    requires
        start.layer == target.layer,
        chebyshev(start, target) + 1 > MAX_A_STAR_ITERATIONS,
    ensures
        search_path(start, target, Seq::<Position>::empty()) is None,
{
    let none = Seq::<Position>::empty();
    lemma_beeline_is_route(start, target);
    assert forall|steps: Seq<Position>| #[trigger]
        is_route(none, start, steps) && route_end(start, steps) == target implies steps.len() + 1
        > MAX_A_STAR_ITERATIONS by {
        lemma_route_length(none, start, steps);
    }
    lemma_long_way(start, target, none);
}

/// Where nothing blocks, the beeline is a route to the target.
pub proof fn lemma_beeline_is_route(start: Position, target: Position)
    requires
        start.layer == target.layer,
    ensures
        is_route(Seq::<Position>::empty(), start, beeline(start, target)),
        route_end(start, beeline(start, target)) == target,
        connected(Seq::<Position>::empty(), start, target),
{
    let none = Seq::<Position>::empty();
    let line = beeline(start, target);
    assert forall|i: int| 0 <= i < line.len() implies adjacent(
        before_step(start, line, i),
        #[trigger] line[i],
    ) && !blocked(none, line[i]) by {
        lemma_along(start, target, i);
    }
    lemma_along(start, target, chebyshev(start, target));
    assert(is_route(none, start, line) && route_end(start, line) == target);
}

} // verus!
