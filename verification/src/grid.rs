//! Neighbourhoods and obstacles on the grid.
//!
//! A cell has up to eight neighbours on its own layer. They are always
//! scanned in the same order: by `x` first, then by `y`, both ascending.

use vstd::prelude::*;
use crate::map::{Position, spec_span};

verus! {

/// The Chebyshev distance of two cells, layers left aside: the number of
/// king's moves between them.
pub open spec fn chebyshev(a: Position, b: Position) -> int {
    let dx = spec_span(a.x as int, b.x as int);
    let dy = spec_span(a.y as int, b.y as int);
    if dx >= dy {
        dx
    } else {
        dy
    }
}

/// Two cells of one layer that touch by a side or a corner.
pub open spec fn adjacent(a: Position, b: Position) -> bool {
    a.layer == b.layer && chebyshev(a, b) == 1
}

/// Whether `p` is one of the cells that block.
pub open spec fn blocked(obstacles: Seq<Position>, p: Position) -> bool {
    obstacles.contains(p)
}

/// The `k`-th cell of the three by three block around `p`, in scan order;
/// `None` for the centre (`k == 4`), for a `k` outside `0..9`, and where the
/// grid ends.
pub open spec fn neighbor_at(p: Position, k: int) -> Option<Position> {
    let x = p.x + k / 3 - 1;
    let y = p.y + k % 3 - 1;
    if 0 <= k < 9 && k != 4 && i32::MIN <= x <= i32::MAX && i32::MIN <= y <= i32::MAX {
        Some(Position { x: x as i32, y: y as i32, layer: p.layer })
    } else {
        None
    }
}

/// The neighbours of `p` that do not block, taken from the first `k` cells of
/// the scan.
pub open spec fn free_neighbors_upto(obstacles: Seq<Position>, p: Position, k: int) -> Seq<
    Position,
>
    decreases k,
{
    if k <= 0 {
        Seq::empty()
    } else {
        let before = free_neighbors_upto(obstacles, p, k - 1);
        match neighbor_at(p, k - 1) {
            Some(n) => if blocked(obstacles, n) {
                before
            } else {
                before.push(n)
            },
            None => before,
        }
    }
}

/// The neighbours of `p` that do not block, in scan order.
pub open spec fn free_neighbors(obstacles: Seq<Position>, p: Position) -> Seq<Position> {
    free_neighbors_upto(obstacles, p, 9)
}

/// Looks `p` up among the obstacles.
pub fn is_blocked(obstacles: &Vec<Position>, p: Position) -> (b: bool)
    ensures
        b == blocked(obstacles@, p),
{
    let mut i: usize = 0;
    while i < obstacles.len()
        invariant
            i <= obstacles.len(),
            forall|j: int| 0 <= j < i ==> obstacles@[j] != p,
        decreases obstacles.len() - i,
    {
        if obstacles[i] == p {
            return true;
        }
        i += 1;
    }
    false
}

/// The `k`-th cell around `p`, if there is one.
pub fn neighbor(p: Position, k: u8) -> (r: Option<Position>)
    ensures
        r == neighbor_at(p, k as int),
{
    if k >= 9 || k == 4 {
        return None;
    }
    let x: i64 = p.x as i64 + (k / 3) as i64 - 1;
    let y: i64 = p.y as i64 + (k % 3) as i64 - 1;
    if x < i32::MIN as i64 || x > i32::MAX as i64 || y < i32::MIN as i64 || y > i32::MAX as i64 {
        None
    } else {
        Some(Position { x: x as i32, y: y as i32, layer: p.layer })
    }
}

/// Collects the neighbours of `p` that do not block.
pub fn open_neighbors(obstacles: &Vec<Position>, p: Position) -> (found: Vec<Position>)
    ensures
        found@ == free_neighbors(obstacles@, p),
{
    let mut found: Vec<Position> = Vec::new();
    let mut k: u8 = 0;
    while k < 9
        invariant
            k <= 9,
            found@ == free_neighbors_upto(obstacles@, p, k as int),
        decreases 9 - k,
    {
        match neighbor(p, k) {
            Some(n) => {
                if !is_blocked(obstacles, n) {
                    found.push(n);
                }
            },
            None => {},
        }
        k += 1;
    }
    found
}

/// Whether `n` comes up among the first `k` cells of the scan around `p`.
pub open spec fn scanned(p: Position, k: int, n: Position) -> bool {
    exists|j: int| 0 <= j < k && #[trigger] neighbor_at(p, j) == Some(n)
}

/// What the scan yields: exactly the cells next to `p` that do not block,
/// each of them once, and never more than eight.
pub proof fn lemma_free_neighbors(obstacles: Seq<Position>, p: Position)
    ensures
        forall|n: Position| #[trigger]
            free_neighbors(obstacles, p).contains(n) <==> (adjacent(p, n) && !blocked(
                obstacles,
                n,
            )),
        free_neighbors(obstacles, p).no_duplicates(),
        free_neighbors(obstacles, p).len() <= 8,
{
    lemma_free_neighbors_upto(obstacles, p, 9);
    assert forall|n: Position| #[trigger]
        free_neighbors(obstacles, p).contains(n) <==> (adjacent(p, n) && !blocked(
            obstacles,
            n,
        )) by {
        lemma_scanned(p, n);
    }
}

/// The scan around `p` comes by `n` exactly if the two cells are adjacent.
pub proof fn lemma_scanned(p: Position, n: Position)
    ensures
        scanned(p, 9, n) <==> adjacent(p, n),
{
    if adjacent(p, n) {
        let j = (n.x - p.x + 1) * 3 + (n.y - p.y + 1);
        assert(neighbor_at(p, j) == Some(n));
    }
    if scanned(p, 9, n) {
        let j = choose|j: int| 0 <= j < 9 && #[trigger] neighbor_at(p, j) == Some(n);
        assert(adjacent(p, n));
    }
}

proof fn lemma_free_neighbors_upto(obstacles: Seq<Position>, p: Position, k: int)
    requires
        0 <= k <= 9,
    ensures
        forall|n: Position| #[trigger]
            free_neighbors_upto(obstacles, p, k).contains(n) <==> (!blocked(obstacles, n)
                && scanned(p, k, n)),
        free_neighbors_upto(obstacles, p, k).no_duplicates(),
        free_neighbors_upto(obstacles, p, k).len() <= k,
        k > 4 ==> free_neighbors_upto(obstacles, p, k).len() <= k - 1,
    decreases k,
{
    let found = free_neighbors_upto(obstacles, p, k);
    if k > 0 {
        lemma_free_neighbors_upto(obstacles, p, k - 1);
        let before = free_neighbors_upto(obstacles, p, k - 1);
        assert forall|n: Position| #[trigger]
            found.contains(n) <==> (!blocked(obstacles, n) && scanned(p, k, n)) by {
            if found.contains(n) {
                let i = choose|i: int| 0 <= i < found.len() && found[i] == n;
                if i < before.len() {
                    assert(before[i] == n);
                    assert(before.contains(n));
                    assert(scanned(p, k - 1, n));
                    let j = choose|j: int|
                        0 <= j < k - 1 && #[trigger] neighbor_at(p, j) == Some(n);
                    assert(0 <= j < k && neighbor_at(p, j) == Some(n));
                } else {
                    assert(neighbor_at(p, k - 1) == Some(n));
                }
            }
            if !blocked(obstacles, n) && scanned(p, k, n) {
                let j = choose|j: int| 0 <= j < k && #[trigger] neighbor_at(p, j) == Some(n);
                if j < k - 1 {
                    assert(scanned(p, k - 1, n));
                    assert(before.contains(n));
                    let i = choose|i: int| 0 <= i < before.len() && before[i] == n;
                    assert(found[i] == n);
                } else {
                    assert(found[found.len() - 1] == n);
                }
            }
        }
        assert(found.no_duplicates()) by {
            match neighbor_at(p, k - 1) {
                Some(n) => {
                    if !blocked(obstacles, n) {
                        if before.contains(n) {
                            assert(scanned(p, k - 1, n));
                            let j = choose|j: int|
                                0 <= j < k - 1 && #[trigger] neighbor_at(p, j) == Some(n);
                            assert(false);
                        }
                    }
                },
                None => {},
            }
        }
    } else {
        assert forall|n: Position| !found.contains(n) by {}
    }
}

} // verus!
