//! What holds of the records of a search, and why a round keeps it so.

use vstd::prelude::*;
use crate::grid::{adjacent, blocked, free_neighbors, lemma_free_neighbors};
use crate::map::Position;
use crate::search::{
    close, index_of, is_at, is_pick, known, relax_all, score, spec_expand, spec_relax, Node,
    MAX_A_STAR_ITERATIONS,
};

verus! {

/// No cell has two records.
pub open spec fn distinct(nodes: Seq<Node>) -> bool {
    forall|i: int, j: int|
        0 <= i < j < nodes.len() ==> (#[trigger] nodes[i]).pos != (#[trigger] nodes[j]).pos
}

/// Every record but the first is of a free cell, and its parent is a record
/// of a cell next to it with a lower cost.
pub open spec fn linked(nodes: Seq<Node>, obstacles: Seq<Position>) -> bool {
    forall|i: int|
        0 < i < nodes.len() ==> {
            &&& (#[trigger] nodes[i]).parent < nodes.len()
            &&& nodes[nodes[i].parent as int].cost < nodes[i].cost
            &&& adjacent(nodes[nodes[i].parent as int].pos, nodes[i].pos)
            &&& !blocked(obstacles, nodes[i].pos)
        }
}

/// Every record is of a cell on the layer of `start`, with a cost of at most
/// `rounds`.
pub open spec fn bounded(nodes: Seq<Node>, start: Position, rounds: int) -> bool {
    forall|i: int|
        0 <= i < nodes.len() ==> (#[trigger] nodes[i]).cost <= rounds && nodes[i].pos.layer
            == start.layer
}

/// What holds of the records while a round of a search from `start` is
/// under way: the first record is the start's, and the records are distinct,
/// linked and bounded by `rounds`, the number of rounds begun.
pub open spec fn sound(
    nodes: Seq<Node>,
    start: Position,
    obstacles: Seq<Position>,
    rounds: int,
) -> bool {
    &&& 1 <= nodes.len() <= usize::MAX
    &&& nodes[0].pos == start
    &&& nodes[0].cost == 0
    &&& nodes[0].parent == 0
    &&& 0 <= rounds <= MAX_A_STAR_ITERATIONS
    &&& distinct(nodes)
    &&& linked(nodes, obstacles)
    &&& bounded(nodes, start, rounds)
}

/// What holds of the records between the rounds of a search from `start`:
/// they are sound, and each round so far has added at most eight of them.
pub open spec fn well_formed(
    nodes: Seq<Node>,
    start: Position,
    obstacles: Seq<Position>,
    rounds: int,
) -> bool {
    &&& sound(nodes, start, obstacles, rounds)
    &&& nodes.len() <= 1 + 8 * rounds
}

/// Only one record can be the next to take.
pub proof fn lemma_pick_unique(nodes: Seq<Node>, target: Position, i: int, j: int)
    requires
        is_pick(nodes, target, i),
        is_pick(nodes, target, j),
    ensures
        i == j,
{
    if i < j {
        assert(nodes[i].open);
        assert(score(nodes[i], target) > score(nodes[j], target));
    } else if j < i {
        assert(nodes[j].open);
        assert(score(nodes[j], target) > score(nodes[i], target));
    }
}

/// Only one record can be the first of a cell.
pub proof fn lemma_index_unique(nodes: Seq<Node>, p: Position, i: int, j: int)
    requires
        is_at(nodes, p, i),
        is_at(nodes, p, j),
    ensures
        i == j,
{
    if i < j {
        assert(nodes[i].pos != p);
    } else if j < i {
        assert(nodes[j].pos != p);
    }
}

/// A cell with a record has a first record.
pub proof fn lemma_known_has_index(nodes: Seq<Node>, p: Position)
    requires
        known(nodes, p),
    ensures
        is_at(nodes, p, index_of(nodes, p)),
{
    let i = choose|i: int| 0 <= i < nodes.len() && (#[trigger] nodes[i]).pos == p;
    lemma_first_record(nodes, p, i);
}

proof fn lemma_first_record(nodes: Seq<Node>, p: Position, i: int)
    requires
        0 <= i < nodes.len(),
        nodes[i].pos == p,
    ensures
        exists|k: int| is_at(nodes, p, k),
    decreases i,
{
    if exists|j: int| 0 <= j < i && (#[trigger] nodes[j]).pos == p {
        let j = choose|j: int| 0 <= j < i && (#[trigger] nodes[j]).pos == p;
        lemma_first_record(nodes, p, j);
    } else {
        assert(is_at(nodes, p, i));
    }
}

/// A record added for a new cell, with a parent next to it, keeps the
/// records distinct and linked.
proof fn lemma_push(nodes: Seq<Node>, reached: Node, obstacles: Seq<Position>)
    requires
        distinct(nodes),
        linked(nodes, obstacles),
        nodes.len() >= 1,
        !known(nodes, reached.pos),
        reached.parent < nodes.len(),
        nodes[reached.parent as int].cost < reached.cost,
        adjacent(nodes[reached.parent as int].pos, reached.pos),
        !blocked(obstacles, reached.pos),
    ensures
        distinct(nodes.push(reached)),
        linked(nodes.push(reached), obstacles),
{
    let after = nodes.push(reached);
    assert forall|i: int, j: int| 0 <= i < j < after.len() implies (#[trigger] after[i]).pos != (
    #[trigger] after[j]).pos by {
        if j == nodes.len() {
            assert(nodes[i].pos != reached.pos);
        } else {
            assert(nodes[i].pos != nodes[j].pos);
        }
    }
    assert forall|i: int| 0 < i < after.len() implies {
        &&& (#[trigger] after[i]).parent < after.len()
        &&& after[after[i].parent as int].cost < after[i].cost
        &&& adjacent(after[after[i].parent as int].pos, after[i].pos)
        &&& !blocked(obstacles, after[i].pos)
    } by {
        if i < nodes.len() {
            assert(nodes[i].parent < nodes.len());
        }
    }
}

/// A record replaced by one of the same cell with a lower cost, and a parent
/// next to it, keeps the records distinct and linked.
proof fn lemma_update(nodes: Seq<Node>, at: int, reached: Node, obstacles: Seq<Position>)
    requires
        distinct(nodes),
        linked(nodes, obstacles),
        0 < at < nodes.len(),
        nodes[at].pos == reached.pos,
        reached.cost < nodes[at].cost,
        reached.parent < nodes.len(),
        reached.parent != at,
        nodes[reached.parent as int].cost < reached.cost,
        adjacent(nodes[reached.parent as int].pos, reached.pos),
        !blocked(obstacles, reached.pos),
    ensures
        distinct(nodes.update(at, reached)),
        linked(nodes.update(at, reached), obstacles),
{
    let after = nodes.update(at, reached);
    assert forall|i: int, j: int| 0 <= i < j < after.len() implies (#[trigger] after[i]).pos != (
    #[trigger] after[j]).pos by {
        assert(nodes[i].pos != nodes[j].pos);
    }
    assert forall|i: int| 0 < i < after.len() implies {
        &&& (#[trigger] after[i]).parent < after.len()
        &&& after[after[i].parent as int].cost < after[i].cost
        &&& adjacent(after[after[i].parent as int].pos, after[i].pos)
        &&& !blocked(obstacles, after[i].pos)
    } by {
        if i != at {
            assert(nodes[i].parent < nodes.len());
            let up = nodes[i].parent as int;
            assert(after[up].cost <= nodes[up].cost);
            assert(after[up].pos == nodes[up].pos);
        }
    }
}

/// Offering a free cell next to `nodes[cur]` a way keeps the records sound.
/// No record moves, the one at `cur` is untouched, at most one record is
/// added, and the cell has a record afterwards.
pub proof fn lemma_relax(
    nodes: Seq<Node>,
    cur: int,
    n: Position,
    start: Position,
    obstacles: Seq<Position>,
    rounds: int,
)
    requires
        sound(nodes, start, obstacles, rounds),
        nodes.len() < usize::MAX,
        0 <= cur < nodes.len(),
        nodes[cur].cost < rounds,
        adjacent(nodes[cur].pos, n),
        !blocked(obstacles, n),
    ensures
        sound(spec_relax(nodes, cur, n), start, obstacles, rounds),
        nodes.len() <= spec_relax(nodes, cur, n).len() <= nodes.len() + 1,
        spec_relax(nodes, cur, n)[cur] == nodes[cur],
        forall|i: int|
            0 <= i < nodes.len() ==> (#[trigger] spec_relax(nodes, cur, n)[i]).pos == nodes[i].pos,
        known(spec_relax(nodes, cur, n), n),
{
    let after = spec_relax(nodes, cur, n);
    let reached = Node {
        pos: n,
        cost: (nodes[cur].cost + 1) as u32,
        parent: cur as usize,
        open: true,
    };
    assert(nodes[cur].pos.layer == start.layer);
    if !known(nodes, n) {
        lemma_push(nodes, reached, obstacles);
        assert(after[nodes.len() as int].pos == n);
    } else {
        lemma_known_has_index(nodes, n);
        let at = index_of(nodes, n);
        assert(after[at].pos == n);
        if reached.cost < nodes[at].cost {
            lemma_update(nodes, at, reached, obstacles);
        }
    }
}

/// Offering each of the first `k` of `cells` a way keeps the records sound,
/// adds at most `k` records, and each of these cells has a record afterwards.
pub proof fn lemma_relax_all(
    nodes: Seq<Node>,
    cur: int,
    cells: Seq<Position>,
    k: int,
    start: Position,
    obstacles: Seq<Position>,
    rounds: int,
)
    requires
        sound(nodes, start, obstacles, rounds),
        nodes.len() + k <= usize::MAX,
        0 <= cur < nodes.len(),
        nodes[cur].cost < rounds,
        0 <= k <= cells.len(),
        forall|i: int|
            0 <= i < cells.len() ==> adjacent(nodes[cur].pos, #[trigger] cells[i]) && !blocked(
                obstacles,
                cells[i],
            ),
    ensures
        sound(relax_all(nodes, cur, cells, k), start, obstacles, rounds),
        nodes.len() <= relax_all(nodes, cur, cells, k).len() <= nodes.len() + k,
        relax_all(nodes, cur, cells, k)[cur] == nodes[cur],
        forall|i: int|
            0 <= i < nodes.len() ==> (#[trigger] relax_all(nodes, cur, cells, k)[i]).pos
                == nodes[i].pos,
        forall|i: int| 0 <= i < k ==> known(relax_all(nodes, cur, cells, k), #[trigger] cells[i]),
    decreases k,
{
    if k > 0 {
        lemma_relax_all(nodes, cur, cells, k - 1, start, obstacles, rounds);
        let before = relax_all(nodes, cur, cells, k - 1);
        let after = relax_all(nodes, cur, cells, k);
        assert(adjacent(nodes[cur].pos, cells[k - 1]));
        lemma_relax(before, cur, cells[k - 1], start, obstacles, rounds);
        assert forall|i: int| 0 <= i < nodes.len() implies (#[trigger] after[i]).pos
            == nodes[i].pos by {
            assert(before[i].pos == nodes[i].pos);
        }
        assert forall|i: int| 0 <= i < k implies known(after, #[trigger] cells[i]) by {
            if i < k - 1 {
                assert(known(before, cells[i]));
                let at = choose|at: int|
                    0 <= at < before.len() && (#[trigger] before[at]).pos == cells[i];
                assert(after[at].pos == cells[i]);
            }
        }
    }
}

/// Closing a record keeps the records sound, also for the round that
/// follows.
pub proof fn lemma_close(
    nodes: Seq<Node>,
    cur: int,
    start: Position,
    obstacles: Seq<Position>,
    rounds: int,
)
    requires
        sound(nodes, start, obstacles, rounds),
        0 <= cur < nodes.len(),
        rounds < MAX_A_STAR_ITERATIONS,
    ensures
        sound(close(nodes, cur), start, obstacles, rounds),
        sound(close(nodes, cur), start, obstacles, rounds + 1),
{
    let after = close(nodes, cur);
    assert(distinct(after)) by {
        assert forall|i: int, j: int| 0 <= i < j < after.len() implies (
        #[trigger] after[i]).pos != (#[trigger] after[j]).pos by {
            assert(nodes[i].pos != nodes[j].pos);
        }
    }
    assert(bounded(after, start, rounds)) by {
        assert forall|i: int| 0 <= i < after.len() implies (#[trigger] after[i]).cost <= rounds
            && after[i].pos.layer == start.layer by {
            assert(nodes[i].cost <= rounds);
        }
    }
    assert(linked(after, obstacles)) by {
        assert forall|i: int| 0 < i < after.len() implies {
            &&& (#[trigger] after[i]).parent < after.len()
            &&& after[after[i].parent as int].cost < after[i].cost
            &&& adjacent(after[after[i].parent as int].pos, after[i].pos)
            &&& !blocked(obstacles, after[i].pos)
        } by {
            assert(nodes[i].parent < nodes.len());
        }
    }
}

/// Expanding a record in a new round keeps the records well formed.
pub proof fn lemma_expand(
    nodes: Seq<Node>,
    cur: int,
    start: Position,
    obstacles: Seq<Position>,
    rounds: int,
)
    requires
        well_formed(nodes, start, obstacles, rounds),
        0 <= cur < nodes.len(),
        rounds < MAX_A_STAR_ITERATIONS,
    ensures
        well_formed(spec_expand(nodes, cur, obstacles), start, obstacles, rounds + 1),
        spec_expand(nodes, cur, obstacles).len() >= nodes.len(),
{
    let around = free_neighbors(obstacles, nodes[cur].pos);
    lemma_free_neighbors(obstacles, nodes[cur].pos);
    lemma_close(nodes, cur, start, obstacles, rounds);
    assert(nodes[cur].cost <= rounds);
    assert forall|i: int| 0 <= i < around.len() implies adjacent(
        close(nodes, cur)[cur].pos,
        #[trigger] around[i],
    ) && !blocked(obstacles, around[i]) by {
        assert(around.contains(around[i]));
    }
    lemma_relax_all(
        close(nodes, cur),
        cur,
        around,
        around.len() as int,
        start,
        obstacles,
        rounds + 1,
    );
}

/// Records that are well formed in one round are so in the next.
pub proof fn lemma_next_round(
    nodes: Seq<Node>,
    start: Position,
    obstacles: Seq<Position>,
    rounds: int,
)
    requires
        well_formed(nodes, start, obstacles, rounds),
        rounds < MAX_A_STAR_ITERATIONS,
    ensures
        well_formed(nodes, start, obstacles, rounds + 1),
{
    assert(bounded(nodes, start, rounds + 1)) by {
        assert forall|i: int| 0 <= i < nodes.len() implies (#[trigger] nodes[i]).cost <= rounds + 1
            && nodes[i].pos.layer == start.layer by {
            assert(nodes[i].cost <= rounds);
        }
    }
}

/// `node` is what a way through the record at `cur`, whose cost is `cost`,
/// makes of a record: open, one step further, with that record as parent.
pub open spec fn reached_through(node: Node, cur: int, cost: int) -> bool {
    node.open && node.cost == cost + 1 && node.parent == cur
}

/// `after` is what offers of a way through the record at `cur` can make of
/// `before`. No record moves. A record either stays as it is, or its cost was
/// more than one step beyond that of `cur` and it holds the way through
/// `cur` now. The records added are of cells that were new, and hold that way
/// too.
pub open spec fn grown(before: Seq<Node>, after: Seq<Node>, cur: int) -> bool {
    &&& before.len() <= after.len()
    &&& forall|i: int|
        0 <= i < before.len() ==> (#[trigger] after[i]).pos == before[i].pos && (after[i]
            == before[i] || (reached_through(after[i], cur, before[cur].cost as int)
            && before[cur].cost + 1 < before[i].cost))
    &&& forall|i: int|
        before.len() <= i < after.len() ==> reached_through(
            #[trigger] after[i],
            cur,
            before[cur].cost as int,
        ) && !known(before, after[i].pos)
}

/// One offer makes the records grow, and a record that it adds is of the cell
/// that the way was offered to.
pub proof fn lemma_relax_grows(nodes: Seq<Node>, cur: int, n: Position)
    requires
        0 <= cur < nodes.len() < usize::MAX,
        nodes[cur].cost < MAX_A_STAR_ITERATIONS,
        nodes[cur].pos != n,
    ensures
        grown(nodes, spec_relax(nodes, cur, n), cur),
        spec_relax(nodes, cur, n).len() <= nodes.len() + 1,
        spec_relax(nodes, cur, n).len() == nodes.len() + 1 ==> spec_relax(
            nodes,
            cur,
            n,
        )[nodes.len() as int].pos == n,
        spec_relax(nodes, cur, n)[cur] == nodes[cur],
{
    if known(nodes, n) {
        lemma_known_has_index(nodes, n);
    }
}

/// Growth goes on: what has grown and grows again, through a record that
/// the first growth left alone, has grown.
pub proof fn lemma_grown_twice(first: Seq<Node>, second: Seq<Node>, third: Seq<Node>, cur: int)
    requires
        0 <= cur < first.len(),
        grown(first, second, cur),
        grown(second, third, cur),
        second[cur] == first[cur],
    ensures
        grown(first, third, cur),
{
    let cost = first[cur].cost as int;
    assert forall|i: int| 0 <= i < first.len() implies (#[trigger] third[i]).pos == first[i].pos
        && (third[i] == first[i] || (reached_through(third[i], cur, cost) && cost + 1
        < first[i].cost)) by {
        assert(second[i].pos == first[i].pos);
        assert(third[i].pos == second[i].pos);
    }
    assert forall|i: int| first.len() <= i < third.len() implies reached_through(
        #[trigger] third[i],
        cur,
        cost,
    ) && !known(first, third[i].pos) by {
        if i < second.len() {
            assert(reached_through(second[i], cur, cost));
            assert(third[i].pos == second[i].pos);
        } else {
            assert(!known(second, third[i].pos));
            if known(first, third[i].pos) {
                let at = choose|at: int|
                    0 <= at < first.len() && (#[trigger] first[at]).pos == third[i].pos;
                assert(second[at].pos == third[i].pos);
            }
        }
    }
}

/// The offers of one expansion make the records grow by at most one for each
/// cell, and a record that they add is of one of the cells.
pub proof fn lemma_relax_all_grows(nodes: Seq<Node>, cur: int, cells: Seq<Position>, k: int)
    requires
        0 <= cur < nodes.len(),
        nodes.len() + k <= usize::MAX,
        nodes[cur].cost < MAX_A_STAR_ITERATIONS,
        0 <= k <= cells.len(),
        forall|i: int| 0 <= i < cells.len() ==> nodes[cur].pos != #[trigger] cells[i],
    ensures
        grown(nodes, relax_all(nodes, cur, cells, k), cur),
        relax_all(nodes, cur, cells, k).len() <= nodes.len() + k,
        relax_all(nodes, cur, cells, k)[cur] == nodes[cur],
        forall|i: int|
            nodes.len() <= i < relax_all(nodes, cur, cells, k).len() ==> exists|j: int|
                0 <= j < k && #[trigger] cells[j] == (#[trigger] relax_all(
                    nodes,
                    cur,
                    cells,
                    k,
                )[i]).pos,
    decreases k,
{
    if k > 0 {
        lemma_relax_all_grows(nodes, cur, cells, k - 1);
        let before = relax_all(nodes, cur, cells, k - 1);
        let after = relax_all(nodes, cur, cells, k);
        assert(nodes[cur].pos != cells[k - 1]);
        lemma_relax_grows(before, cur, cells[k - 1]);
        lemma_grown_twice(nodes, before, after, cur);
        assert forall|i: int| nodes.len() <= i < after.len() implies exists|j: int|
            0 <= j < k && #[trigger] cells[j] == (#[trigger] after[i]).pos by {
            if i < before.len() {
                let j = choose|j: int| 0 <= j < k - 1 && #[trigger] cells[j] == before[i].pos;
                assert(after[i].pos == before[i].pos);
                assert(0 <= j < k && cells[j] == after[i].pos);
            } else {
                assert(cells[k - 1] == after[i].pos);
            }
        }
    }
}

} // verus!
