//! The bounded best-first search.
//!
//! The search keeps one record per cell it has come across, in the order in
//! which it found them. A record is open while the cell waits to be
//! expanded. Each round takes the open record with the least score, the
//! earliest found among equals, and expands it, until the target comes up,
//! no record is open, or the rounds run out.

use vstd::prelude::*;
use std::collections::VecDeque;
use crate::ai::Path;
use crate::grid::{adjacent, blocked, free_neighbors, lemma_free_neighbors, open_neighbors};
use crate::map::Position;
use crate::records::{
    lemma_close, lemma_expand, lemma_index_unique, lemma_next_round, lemma_pick_unique,
    lemma_relax_all, sound, well_formed,
};
use crate::routes::{
    connected, is_route, lemma_connected_search, lemma_search_path_is_route, route_end,
};

verus! {

/// The number of rounds a search may begin. The search gives up when it
/// would need one more.
pub const MAX_A_STAR_ITERATIONS: u32 = 100;

/// What the search knows of one cell.
#[derive(Clone, Copy, Debug)]
pub struct Node {
    /// The cell.
    pub pos: Position,
    /// The number of steps of the shortest way found so far from the start.
    pub cost: u32,
    /// The index of the record of the cell before this one on that way.
    pub parent: usize,
    /// Whether the cell waits to be expanded.
    pub open: bool,
}

/// A search between two rounds.
pub struct Search {
    /// The records, in the order of discovery. The first is the start's.
    pub nodes: Seq<Node>,
    /// The index of the record that the last round took.
    pub current: int,
    /// The number of rounds begun.
    pub rounds: int,
}

/// The score by which the open records are ranked: the steps taken so far
/// plus the squared distance that is left. Every step costs one, diagonal or
/// not.
pub open spec fn score(n: Node, target: Position) -> int {
    n.cost + n.pos.spec_distance_squared(target)
}

/// Whether any record is open.
pub open spec fn has_open(nodes: Seq<Node>) -> bool {
    exists|i: int| 0 <= i < nodes.len() && (#[trigger] nodes[i]).open
}

/// `nodes[i]` is open, no open record has a lower score, and every open
/// record before it has a higher one.
pub open spec fn is_pick(nodes: Seq<Node>, target: Position, i: int) -> bool {
    &&& 0 <= i < nodes.len()
    &&& nodes[i].open
    &&& forall|j: int|
        0 <= j < nodes.len() && (#[trigger] nodes[j]).open ==> score(nodes[i], target) <= score(
            nodes[j],
            target,
        )
    &&& forall|j: int|
        0 <= j < i && (#[trigger] nodes[j]).open ==> score(nodes[j], target) > score(
            nodes[i],
            target,
        )
}

/// The index of the record that the next round takes.
pub open spec fn pick(nodes: Seq<Node>, target: Position) -> int {
    choose|i: int| is_pick(nodes, target, i)
}

/// Whether the search has a record of `p`.
pub open spec fn known(nodes: Seq<Node>, p: Position) -> bool {
    exists|i: int| 0 <= i < nodes.len() && (#[trigger] nodes[i]).pos == p
}

/// `nodes[i]` is the first record of `p`.
pub open spec fn is_at(nodes: Seq<Node>, p: Position, i: int) -> bool {
    &&& 0 <= i < nodes.len()
    &&& nodes[i].pos == p
    &&& forall|j: int| 0 <= j < i ==> (#[trigger] nodes[j]).pos != p
}

/// The index of the record of `p`.
pub open spec fn index_of(nodes: Seq<Node>, p: Position) -> int {
    choose|i: int| is_at(nodes, p, i)
}

/// Offers the cell `n` a way through `nodes[cur]`. A cell not seen before
/// gets a record; a known cell is updated and opened again if the new way is
/// shorter than the one it has; else nothing changes.
pub open spec fn spec_relax(nodes: Seq<Node>, cur: int, n: Position) -> Seq<Node> {
    let reached = Node {
        pos: n,
        cost: (nodes[cur].cost + 1) as u32,
        parent: cur as usize,
        open: true,
    };
    if !known(nodes, n) {
        nodes.push(reached)
    } else if reached.cost < nodes[index_of(nodes, n)].cost {
        nodes.update(index_of(nodes, n), reached)
    } else {
        nodes
    }
}

/// Offers the first `k` of `cells` a way through `nodes[cur]`, in their
/// order.
pub open spec fn relax_all(nodes: Seq<Node>, cur: int, cells: Seq<Position>, k: int) -> Seq<Node>
    decreases k,
{
    if k <= 0 {
        nodes
    } else {
        spec_relax(relax_all(nodes, cur, cells, k - 1), cur, cells[k - 1])
    }
}

/// `nodes` with the record at `cur` closed.
pub open spec fn close(nodes: Seq<Node>, cur: int) -> Seq<Node> {
    nodes.update(
        cur,
        Node { pos: nodes[cur].pos, cost: nodes[cur].cost, parent: nodes[cur].parent, open: false },
    )
}

/// Expands `nodes[cur]`: closes it and offers each of its free neighbours a
/// way through it.
pub open spec fn spec_expand(nodes: Seq<Node>, cur: int, obstacles: Seq<Position>) -> Seq<Node> {
    let around = free_neighbors(obstacles, nodes[cur].pos);
    relax_all(close(nodes, cur), cur, around, around.len() as int)
}

/// The search before its first round.
pub open spec fn initial(start: Position) -> Search {
    Search {
        nodes: seq![Node { pos: start, cost: 0, parent: 0, open: true }],
        current: 0,
        rounds: 0,
    }
}

/// Runs the search from `s` to its end. A round begins only while a record
/// is open. A round beyond the limit only counts itself, so that the count
/// ends above the limit. A round that takes the target ends the search; any
/// other expands what it took.
pub open spec fn run(s: Search, target: Position, obstacles: Seq<Position>) -> Search
    decreases MAX_A_STAR_ITERATIONS - s.rounds,
{
    if !has_open(s.nodes) {
        s
    } else if s.rounds >= MAX_A_STAR_ITERATIONS {
        Search { nodes: s.nodes, current: s.current, rounds: s.rounds + 1 }
    } else {
        let taken = pick(s.nodes, target);
        if s.nodes[taken].pos == target {
            Search { nodes: s.nodes, current: taken, rounds: s.rounds + 1 }
        } else {
            run(
                Search {
                    nodes: spec_expand(s.nodes, taken, obstacles),
                    current: taken,
                    rounds: s.rounds + 1,
                },
                target,
                obstacles,
            )
        }
    }
}

/// The state in which a search from `start` for `target` ends.
pub open spec fn outcome(start: Position, target: Position, obstacles: Seq<Position>) -> Search {
    run(initial(start), target, obstacles)
}

/// The cells on the way that the records describe from the start to
/// `nodes[i]`: the start itself left out, `nodes[i]` included.
pub open spec fn trail(nodes: Seq<Node>, i: int) -> Seq<Position>
    decreases nodes[i].cost,
{
    if 0 < i < nodes.len() && nodes[i].parent < nodes.len() && nodes[nodes[i].parent as int].cost
        < nodes[i].cost {
        trail(nodes, nodes[i].parent as int).push(nodes[i].pos)
    } else {
        Seq::empty()
    }
}

/// The route that a search from `start` for `target` yields. There is none
/// where the search had to begin a round beyond the limit. Where it ended
/// within the limit, the route is the way to the record taken last, be that
/// the target or not.
pub open spec fn search_path(start: Position, target: Position, obstacles: Seq<Position>) -> Option<
    Seq<Position>,
> {
    let end = outcome(start, target, obstacles);
    if end.rounds <= MAX_A_STAR_ITERATIONS {
        Some(trail(end.nodes, end.current))
    } else {
        None
    }
}

/// Finds the record to take next, if any is open.
fn select(nodes: &Vec<Node>, target: Position) -> (r: Option<usize>)
    ensures
        r is None <==> !has_open(nodes@),
        r matches Some(i) ==> is_pick(nodes@, target, i as int) && i as int == pick(nodes@, target),
{
    let mut best: Option<usize> = None;
    let mut least: u128 = 0;
    let mut i: usize = 0;
    while i < nodes.len()
        invariant
            i <= nodes.len(),
            best is None ==> forall|j: int| 0 <= j < i ==> !(#[trigger] nodes@[j]).open,
            best matches Some(b) ==> {
                &&& b < i
                &&& nodes@[b as int].open
                &&& least == score(nodes@[b as int], target)
                &&& forall|j: int|
                    0 <= j < i && (#[trigger] nodes@[j]).open ==> least <= score(nodes@[j], target)
                &&& forall|j: int|
                    0 <= j < b && (#[trigger] nodes@[j]).open ==> score(nodes@[j], target) > least
            },
        decreases nodes.len() - i,
    {
        if nodes[i].open {
            let estimate: u128 = nodes[i].pos.wide_distance_squared(&target);
            let total: u128 = nodes[i].cost as u128 + estimate;
            if best.is_none() || total < least {
                best = Some(i);
                least = total;
            }
        }
        i += 1;
    }
    proof {
        if let Some(b) = best {
            assert(is_pick(nodes@, target, b as int));
            lemma_pick_unique(nodes@, target, b as int, pick(nodes@, target));
        }
    }
    best
}

/// Looks up the record of `p`.
fn find(nodes: &Vec<Node>, p: Position) -> (r: Option<usize>)
    ensures
        r is None <==> !known(nodes@, p),
        r matches Some(i) ==> is_at(nodes@, p, i as int) && i as int == index_of(nodes@, p),
{
    let mut i: usize = 0;
    while i < nodes.len()
        invariant
            i <= nodes.len(),
            forall|j: int| 0 <= j < i ==> (#[trigger] nodes@[j]).pos != p,
        decreases nodes.len() - i,
    {
        if nodes[i].pos == p {
            proof {
                assert(is_at(nodes@, p, i as int));
                lemma_index_unique(nodes@, p, i as int, index_of(nodes@, p));
            }
            return Some(i);
        }
        i += 1;
    }
    None
}

/// Offers the cell `n` a way through the record at `cur`.
fn relax(nodes: &mut Vec<Node>, cur: usize, n: Position)
    requires
        cur < old(nodes).len(),
        old(nodes)[cur as int].cost < u32::MAX,
    ensures
        final(nodes)@ == spec_relax(old(nodes)@, cur as int, n),
{
    let reached = Node { pos: n, cost: nodes[cur].cost + 1, parent: cur, open: true };
    match find(nodes, n) {
        None => {
            nodes.push(reached);
        },
        Some(at) => {
            if reached.cost < nodes[at].cost {
                nodes.set(at, reached);
            }
        },
    }
}

/// Closes the record at `cur` and offers each free neighbour of its cell a
/// way through it.
fn expand(
    nodes: &mut Vec<Node>,
    cur: usize,
    obstacles: &Vec<Position>,
    Ghost(start): Ghost<Position>,
    Ghost(rounds): Ghost<int>,
)
    requires
        well_formed(old(nodes)@, start, obstacles@, rounds),
        cur < old(nodes).len(),
        rounds < MAX_A_STAR_ITERATIONS,
    ensures
        final(nodes)@ == spec_expand(old(nodes)@, cur as int, obstacles@),
{
    let taken = nodes[cur];
    let around = open_neighbors(obstacles, taken.pos);
    nodes.set(cur, Node { pos: taken.pos, cost: taken.cost, parent: taken.parent, open: false });
    proof {
        lemma_free_neighbors(obstacles@, taken.pos);
        lemma_close(old(nodes)@, cur as int, start, obstacles@, rounds);
        assert forall|i: int| 0 <= i < around@.len() implies adjacent(
            taken.pos,
            #[trigger] around@[i],
        ) && !blocked(obstacles@, around@[i]) by {
            assert(around@.contains(around@[i]));
        }
    }
    let ghost closed = nodes@;
    let mut k: usize = 0;
    while k < around.len()
        invariant
            k <= around.len(),
            around@.len() <= 8,
            closed == close(old(nodes)@, cur as int),
            sound(closed, start, obstacles@, rounds + 1),
            closed.len() <= 1 + 8 * rounds,
            cur < closed.len(),
            closed[cur as int].cost <= rounds,
            rounds < MAX_A_STAR_ITERATIONS,
            forall|i: int|
                0 <= i < around@.len() ==> adjacent(closed[cur as int].pos, #[trigger] around@[i])
                    && !blocked(obstacles@, around@[i]),
            nodes@ == relax_all(closed, cur as int, around@, k as int),
        decreases around.len() - k,
    {
        proof {
            lemma_relax_all(closed, cur as int, around@, k as int, start, obstacles@, rounds + 1);
        }
        relax(nodes, cur, around[k]);
        k += 1;
    }
}

/// Walks from the record at `end` back to the start and returns the cells
/// passed, in the order in which a follower visits them.
fn reconstruct(
    nodes: &Vec<Node>,
    end: usize,
    Ghost(start): Ghost<Position>,
    Ghost(obstacles): Ghost<Seq<Position>>,
    Ghost(rounds): Ghost<int>,
) -> (path: VecDeque<Position>)
    requires
        sound(nodes@, start, obstacles, rounds),
        end < nodes.len(),
    ensures
        path@ == trail(nodes@, end as int),
{
    let mut path: VecDeque<Position> = VecDeque::new();
    let mut i: usize = end;
    while i != 0
        invariant
            sound(nodes@, start, obstacles, rounds),
            i < nodes.len(),
            trail(nodes@, end as int) == trail(nodes@, i as int) + path@,
        decreases nodes@[i as int].cost,
    {
        let ghost before = path@;
        path.push_front(nodes[i].pos);
        proof {
            let up = nodes@[i as int].parent as int;
            assert(trail(nodes@, i as int) == trail(nodes@, up).push(nodes@[i as int].pos));
            assert(trail(nodes@, up).push(nodes@[i as int].pos) + before == trail(nodes@, up)
                + path@);
        }
        i = nodes[i].parent;
    }
    assert(trail(nodes@, 0) == Seq::<Position>::empty());
    path
}

/// Searches a route from `start` to `target` round by round and gives up
/// when the rounds of the limit do not suffice.
pub fn search(start: Position, target: Position, obstacles: &Vec<Position>) -> (r: Option<Path>)
    ensures
        r is Some <==> search_path(start, target, obstacles@) is Some,
        r matches Some(path) ==> search_path(start, target, obstacles@) == Some(path@),
        r matches Some(path) ==> is_route(obstacles@, start, path@) && path@.len() + 1
            <= MAX_A_STAR_ITERATIONS,
        r matches Some(path) ==> forall|i: int|
            0 <= i < path@.len() ==> (#[trigger] path@[i]).layer == start.layer,
        r matches Some(path) ==> connected(obstacles@, start, target) ==> route_end(start, path@)
            == target,
{
    proof {
        lemma_search_path_is_route(start, target, obstacles@);
        if connected(obstacles@, start, target) {
            lemma_connected_search(start, target, obstacles@);
        }
    }
    let mut nodes: Vec<Node> = Vec::new();
    nodes.push(Node { pos: start, cost: 0, parent: 0, open: true });
    let mut current: usize = 0;
    let mut rounds: u32 = 0;
    assert(nodes@ == initial(start).nodes);
    loop
        invariant_except_break
            rounds <= MAX_A_STAR_ITERATIONS,
            run(
                Search { nodes: nodes@, current: current as int, rounds: rounds as int },
                target,
                obstacles@,
            ) == outcome(start, target, obstacles@),
        invariant
            current < nodes.len(),
            rounds <= MAX_A_STAR_ITERATIONS ==> well_formed(
                nodes@,
                start,
                obstacles@,
                rounds as int,
            ),
        ensures
            (Search { nodes: nodes@, current: current as int, rounds: rounds as int }) == outcome(
                start,
                target,
                obstacles@,
            ),
        decreases MAX_A_STAR_ITERATIONS - rounds,
    {
        let next = select(&nodes, target);
        if next.is_none() {
            break ;
        }
        if rounds >= MAX_A_STAR_ITERATIONS {
            rounds += 1;
            break ;
        }
        let taken: usize = next.unwrap();
        rounds += 1;
        current = taken;
        if nodes[taken].pos == target {
            proof {
                lemma_next_round(nodes@, start, obstacles@, rounds as int - 1);
            }
            break ;
        }
        proof {
            lemma_expand(nodes@, taken as int, start, obstacles@, rounds as int - 1);
        }
        expand(&mut nodes, taken, obstacles, Ghost(start), Ghost(rounds as int - 1));
    }
    if rounds <= MAX_A_STAR_ITERATIONS {
        let path = reconstruct(
            &nodes,
            current,
            Ghost(start),
            Ghost(obstacles@),
            Ghost(rounds as int),
        );
        Some(Path(path))
    } else {
        None
    }
}

} // verus!
