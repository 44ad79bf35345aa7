//! Breadth-first flood fill over the open cells of a grid.

use crate::cellset::CellSet;
use crate::engine::Point;
use crate::grid::adjacent;
use crate::grid::in_grid;
use crate::grid::lemma_closed_set_holds_region;
use crate::grid::lemma_distinct_cells_bound;
use crate::grid::lemma_reachable_self;
use crate::grid::lemma_reachable_step;
use crate::grid::open_cell;
use crate::grid::reachable;
use crate::grid::region;
use crate::grid::MAX_GRID;
use vstd::prelude::*;

verus! {

/// What holds of the cells found so far: `queue` lists them in the order in
/// which they were found, each once, and a walk from `start` reaches each.
spec fn found(n: int, walls: Set<Point>, start: Point, seen: Set<Point>, queue: Seq<Point>) -> bool {
    &&& queue.no_duplicates()
    &&& forall|p: Point| seen.contains(p) <==> queue.contains(p)
    &&& forall|i: int|
        0 <= i < queue.len() ==> in_grid(n, #[trigger] queue[i]) && reachable(
            n,
            walls,
            start,
            queue[i],
        )
}

/// The open neighbours of the first `done` cells of `queue` have been found.
spec fn expanded(n: int, walls: Set<Point>, seen: Set<Point>, queue: Seq<Point>, done: int) -> bool {
    forall|i: int, q: Point|
        0 <= i < done && adjacent(#[trigger] queue[i], q) && open_cell(n, walls, q)
            ==> #[trigger] seen.contains(q)
}

/// Looks at `next`, a neighbour of the found cell `cur`, and notes it as found
/// if it is open and new.
fn visit(
    walls: &CellSet,
    seen: &mut CellSet,
    queue: &mut Vec<Point>,
    Ghost(start): Ghost<Point>,
    Ghost(cur): Ghost<Point>,
    next: Point,
)
    requires
        walls.wf(),
        old(seen).wf(),
        old(seen).side() == walls.side(),
        found(walls.side(), walls@, start, old(seen)@, old(queue)@),
        old(queue)@.contains(cur),
        adjacent(cur, next),
    ensures
        final(seen).wf(),
        final(seen).side() == walls.side(),
        found(walls.side(), walls@, start, final(seen)@, final(queue)@),
        old(queue)@.is_prefix_of(final(queue)@),
        old(seen)@.subset_of(final(seen)@),
        open_cell(walls.side(), walls@, next) ==> final(seen)@.contains(next),
{
    let n: i32 = walls.grid_side();
    if next.x >= 0 && next.x < n && next.y >= 0 && next.y < n && !walls.contains(next)
        && !seen.contains(next) {
        seen.insert(next);
        queue.push(next);
        proof {
            let before = old(queue)@;
            let after = queue@;
            let at = choose|i: int| 0 <= i < before.len() && before[i] == cur;
            assert(reachable(n as int, walls@, start, before[at]));
            lemma_reachable_step(n as int, walls@, start, cur, next);
            assert forall|i: int| 0 <= i < after.len() implies in_grid(n as int, #[trigger] after[i])
                && reachable(n as int, walls@, start, after[i]) by {
                if i < before.len() {
                    assert(after[i] == before[i]);
                }
            }
            assert forall|p: Point| seen@.contains(p) <==> after.contains(p) by {
                if before.contains(p) {
                    let i = choose|i: int| 0 <= i < before.len() && before[i] == p;
                    assert(after[i] == p);
                }
                if after.contains(p) {
                    let i = choose|i: int| 0 <= i < after.len() && after[i] == p;
                    if i < before.len() {
                        assert(before[i] == p);
                    }
                }
                assert(after[before.len() as int] == next);
            }
            assert forall|i: int, j: int|
                0 <= i < after.len() && 0 <= j < after.len() && i != j implies after[i]
                != after[j] by {
                if i < before.len() {
                    assert(before[i] == after[i]);
                }
                if j < before.len() {
                    assert(before[j] == after[j]);
                }
            }
        }
    }
}

/// Finds every cell that a walk from `start` reaches over cells outside
/// `walls`. Returns the set of those cells, `start` among them, and their
/// number.
pub fn flood(walls: &CellSet, start: Point) -> (r: (CellSet, u32))
    requires
        walls.wf(),
        in_grid(walls.side(), start),
    ensures
        r.0.wf(),
        r.0.side() == walls.side(),
        r.0@ == region(walls.side(), walls@, start),
        r.0@.finite(),
        r.1 == r.0@.len(),
        1 <= r.1 <= walls.side() * walls.side(),
{
    let n: i32 = walls.grid_side();
    let mut seen = CellSet::new(n);
    let mut queue: Vec<Point> = Vec::new();
    seen.insert(start);
    queue.push(start);
    proof {
        lemma_reachable_self(n as int, walls@, start);
        assert(queue@[0] == start);
        assert forall|p: Point| seen@.contains(p) <==> queue@.contains(p) by {
            if queue@.contains(p) {
                let i = choose|i: int| 0 <= i < queue@.len() && queue@[i] == p;
            }
        }
    }
    let mut done: usize = 0;
    while done < queue.len()
        invariant
            walls.wf(),
            seen.wf(),
            seen.side() == walls.side(),
            n == walls.side(),
            1 <= n <= MAX_GRID,
            found(n as int, walls@, start, seen@, queue@),
            expanded(n as int, walls@, seen@, queue@, done as int),
            done <= queue@.len(),
            queue@.len() >= 1,
            queue@[0] == start,
        decreases n * n - done,
    {
        proof {
            lemma_distinct_cells_bound(n as int, queue@);
        }
        let cur = queue[done];
        let ghost reached = queue@;
        let ghost marked = seen@;
        assert(reached.contains(cur));
        assert(in_grid(n as int, reached[done as int]));
        let up = Point { x: cur.x, y: cur.y - 1 };
        let right = Point { x: cur.x + 1, y: cur.y };
        let down = Point { x: cur.x, y: cur.y + 1 };
        let left = Point { x: cur.x - 1, y: cur.y };
        visit(walls, &mut seen, &mut queue, Ghost(start), Ghost(cur), up);
        assert(queue@.contains(cur)) by {
            assert(queue@[done as int] == cur);
        }
        visit(walls, &mut seen, &mut queue, Ghost(start), Ghost(cur), right);
        assert(queue@.contains(cur)) by {
            assert(queue@[done as int] == cur);
        }
        visit(walls, &mut seen, &mut queue, Ghost(start), Ghost(cur), down);
        assert(queue@.contains(cur)) by {
            assert(queue@[done as int] == cur);
        }
        visit(walls, &mut seen, &mut queue, Ghost(start), Ghost(cur), left);
        proof {
            assert(reached.is_prefix_of(queue@));
            assert(marked.subset_of(seen@));
            assert forall|i: int, q: Point|
                0 <= i < done + 1 && adjacent(#[trigger] queue@[i], q) && open_cell(
                    n as int,
                    walls@,
                    q,
                ) implies #[trigger] seen@.contains(q) by {
                assert(queue@[i] == reached[i]);
                if i < done {
                    assert(marked.contains(q));
                } else {
                    assert(q == up || q == right || q == down || q == left);
                }
            }
            lemma_distinct_cells_bound(n as int, queue@);
        }
        done += 1;
    }
    proof {
        lemma_distinct_cells_bound(n as int, queue@);
        assert(seen@ =~= queue@.to_set());
        assert forall|a: Point, b: Point|
            seen@.contains(a) && adjacent(a, b) && open_cell(n as int, walls@, b) implies seen@.contains(
            b,
        ) by {
            let i = choose|i: int| 0 <= i < queue@.len() && queue@[i] == a;
            assert(adjacent(queue@[i], b));
        }
        assert(seen@.contains(start)) by {
            assert(queue@.contains(queue@[0]));
        }
        lemma_closed_set_holds_region(n as int, walls@, start, seen@);
        assert forall|p: Point| seen@.contains(p) implies region(n as int, walls@, start).contains(
            p,
        ) by {
            let i = choose|i: int| 0 <= i < queue@.len() && queue@[i] == p;
            assert(reachable(n as int, walls@, start, queue@[i]));
        }
        assert(seen@ =~= region(n as int, walls@, start));
        seen.lemma_members();
        assert(n * n <= 214739716) by (nonlinear_arith)
            requires
                1 <= n <= 14654,
        ;
    }
    let count: u32 = queue.len() as u32;
    (seen, count)
}

} // verus!
