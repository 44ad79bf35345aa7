//! Cells of a square grid, walks between them, and the flood fill that finds
//! what a walk can reach.

use crate::engine::Point;
use vstd::arithmetic::div_mod::lemma_fundamental_div_mod;
use vstd::prelude::*;
use vstd::set_lib::lemma_int_range;
use vstd::set_lib::lemma_len_subset;
use vstd::set_lib::lemma_map_size;
use vstd::set_lib::set_int_range;

verus! {

/// The largest side of a grid. On it a snake that fills the grid, at ten
/// points a cell, still has a score that fits an `i32`.
pub const MAX_GRID: i32 = 14654;

/// `p` lies on the grid of side `n`.
pub open spec fn in_grid(n: int, p: Point) -> bool {
    0 <= p.x < n && 0 <= p.y < n
}

/// `a` and `b` are one step apart, horizontally or vertically.
pub open spec fn adjacent(a: Point, b: Point) -> bool {
    ||| (a.x == b.x && (a.y - b.y == 1 || b.y - a.y == 1))
    ||| (a.y == b.y && (a.x - b.x == 1 || b.x - a.x == 1))
}

/// `p` lies on the grid and no wall stands on it.
pub open spec fn open_cell(n: int, walls: Set<Point>, p: Point) -> bool {
    in_grid(n, p) && !walls.contains(p)
}

/// `path` goes from cell to adjacent cell and, after its first cell, over open
/// cells only. The first cell is where the walker stands: it may be a wall.
pub open spec fn is_walk(n: int, walls: Set<Point>, path: Seq<Point>) -> bool {
    &&& path.len() > 0
    &&& forall|i: int|
        0 < i < path.len() ==> open_cell(n, walls, #[trigger] path[i]) && adjacent(
            path[i - 1],
            path[i],
        )
}

/// Some walk leads from `from` to `to`.
pub open spec fn reachable(n: int, walls: Set<Point>, from: Point, to: Point) -> bool {
    exists|path: Seq<Point>| #[trigger]
        is_walk(n, walls, path) && path[0] == from && path.last() == to
}

/// Every cell that a walk from `from` reaches, `from` itself included.
pub open spec fn region(n: int, walls: Set<Point>, from: Point) -> Set<Point> {
    Set::new(|p: Point| reachable(n, walls, from, p))
}

/// All cells of the grid of side `n`.
pub open spec fn all_cells(n: int) -> Set<Point> {
    Set::new(|p: Point| in_grid(n, p))
}

/// The open cells of the grid.
pub open spec fn open_cells(n: int, walls: Set<Point>) -> Set<Point> {
    Set::new(|p: Point| open_cell(n, walls, p))
}

/// The place of `p` when the grid is laid out column after column.
pub open spec fn cell_index(n: int, p: Point) -> int {
    p.x * n + p.y
}

/// The place of a cell of the grid lies below the number of cells.
pub proof fn lemma_index_in_range(n: int, p: Point)
    requires
        in_grid(n, p),
    ensures
        0 <= p.x * n <= cell_index(n, p) < n * n,
        n <= MAX_GRID ==> n * n <= 214739716,
{
    assert(0 <= p.x * n && p.x * n + n <= n * n) by (nonlinear_arith)
        requires
            0 <= p.x < n,
    ;
    assert(n <= 14654 ==> n * n <= 214739716) by (nonlinear_arith)
        requires
            0 < n,
    ;
}

/// No two cells of the grid share a place.
pub proof fn lemma_index_injective(n: int, p: Point, q: Point)
    requires
        in_grid(n, p),
        in_grid(n, q),
        cell_index(n, p) == cell_index(n, q),
    ensures
        p == q,
{
    assert(p.x == q.x) by (nonlinear_arith)
        requires
            p.x * n + p.y == q.x * n + q.y,
            0 <= p.y < n,
            0 <= q.y < n,
    ;
}

/// The cell whose index is `k`.
pub open spec fn cell_at(n: int, k: int) -> Point {
    Point { x: (k / n) as i32, y: (k % n) as i32 }
}

proof fn lemma_cell_at(n: int, k: int)
    requires
        0 < n <= MAX_GRID,
        0 <= k < n * n,
    ensures
        in_grid(n, cell_at(n, k)),
        cell_index(n, cell_at(n, k)) == k,
{
    lemma_fundamental_div_mod(k, n);
    assert(0 <= k % n < n);
    assert(0 <= k / n < n) by (nonlinear_arith)
        requires
            0 < n,
            0 <= k < n * n,
            k == n * (k / n) + (k % n),
            0 <= k % n < n,
    ;
    assert(n * (k / n) == (k / n) * n) by (nonlinear_arith);
}

/// A grid of side `n` has `n * n` cells.
pub proof fn lemma_all_cells_len(n: int)
    requires
        0 <= n <= MAX_GRID,
    ensures
        all_cells(n).finite(),
        all_cells(n).len() == n * n,
{
    if n == 0 {
        assert(all_cells(n) =~= Set::<Point>::empty());
    } else {
        assert(0 <= n * n) by (nonlinear_arith);
        let indices = set_int_range(0, n * n);
        let f = |k: int| cell_at(n, k);
        lemma_int_range(0, n * n);
        assert forall|k1: int, k2: int|
            indices.contains(k1) && indices.contains(k2) && f(k1) == f(k2) implies k1 == k2 by {
            lemma_cell_at(n, k1);
            lemma_cell_at(n, k2);
        }
        assert forall|p: Point| all_cells(n).contains(p) implies indices.map(f).contains(p) by {
            let k = cell_index(n, p);
            lemma_index_in_range(n, p);
            lemma_cell_at(n, k);
            lemma_index_injective(n, p, cell_at(n, k));
            assert(indices.contains(k) && f(k) == p);
        }
        assert forall|p: Point| indices.map(f).contains(p) implies all_cells(n).contains(p) by {
            let k = choose|k: int| indices.contains(k) && p == f(k);
            lemma_cell_at(n, k);
        }
        assert(indices.map(f) =~= all_cells(n));
        lemma_map_size(indices, all_cells(n), f);
    }
}

/// Cells of the grid, no two of them equal, are at most `n * n`.
pub proof fn lemma_distinct_cells_bound(n: int, cells: Seq<Point>)
    requires
        0 <= n <= MAX_GRID,
        cells.no_duplicates(),
        forall|i: int| 0 <= i < cells.len() ==> in_grid(n, #[trigger] cells[i]),
    ensures
        cells.to_set().finite(),
        cells.to_set().len() == cells.len(),
        cells.len() <= n * n,
{
    cells.unique_seq_to_set();
    lemma_all_cells_len(n);
    assert(cells.to_set().subset_of(all_cells(n))) by {
        assert forall|p: Point| cells.to_set().contains(p) implies all_cells(n).contains(p) by {
            let i = choose|i: int| 0 <= i < cells.len() && cells[i] == p;
            assert(in_grid(n, cells[i]));
        }
    }
    lemma_len_subset(cells.to_set(), all_cells(n));
}

/// Every cell reaches itself.
pub proof fn lemma_reachable_self(n: int, walls: Set<Point>, from: Point)
    ensures
        reachable(n, walls, from, from),
{
    let path = seq![from];
    assert(is_walk(n, walls, path));
    assert(path[0] == from && path.last() == from);
}

/// A walk goes on over an adjacent open cell.
pub proof fn lemma_reachable_step(n: int, walls: Set<Point>, from: Point, via: Point, to: Point)
    requires
        reachable(n, walls, from, via),
        adjacent(via, to),
        open_cell(n, walls, to),
    ensures
        reachable(n, walls, from, to),
{
    let path = choose|path: Seq<Point>| #[trigger]
        is_walk(n, walls, path) && path[0] == from && path.last() == via;
    let longer = path.push(to);
    assert forall|i: int| 0 < i < longer.len() implies open_cell(n, walls, #[trigger] longer[i])
        && adjacent(longer[i - 1], longer[i]) by {
        if i < path.len() {
            assert(longer[i] == path[i]);
            assert(longer[i - 1] == path[i - 1]);
        }
    }
    assert(is_walk(n, walls, longer));
    assert(longer[0] == from && longer.last() == to);
}

/// A cell that a walk reaches after its start is open.
pub proof fn lemma_reached_is_open(n: int, walls: Set<Point>, from: Point, to: Point)
    requires
        reachable(n, walls, from, to),
        to != from,
    ensures
        open_cell(n, walls, to),
{
    let path = choose|path: Seq<Point>| #[trigger]
        is_walk(n, walls, path) && path[0] == from && path.last() == to;
    assert(open_cell(n, walls, path[path.len() - 1]));
}

proof fn lemma_walk_stays_inside(
    n: int,
    walls: Set<Point>,
    inside: Set<Point>,
    path: Seq<Point>,
    i: int,
)
    requires
        is_walk(n, walls, path),
        inside.contains(path[0]),
        forall|a: Point, b: Point|
            inside.contains(a) && adjacent(a, b) && open_cell(n, walls, b) ==> inside.contains(b),
        0 <= i < path.len(),
    ensures
        inside.contains(path[i]),
    decreases i,
{
    if i > 0 {
        lemma_walk_stays_inside(n, walls, inside, path, i - 1);
        assert(open_cell(n, walls, path[i]) && adjacent(path[i - 1], path[i]));
    }
}

/// A set that holds `from` and, with each of its cells, the open cells next
/// to it, holds everything that a walk from `from` reaches.
pub proof fn lemma_closed_set_holds_region(
    n: int,
    walls: Set<Point>,
    from: Point,
    inside: Set<Point>,
)
    requires
        inside.contains(from),
        forall|a: Point, b: Point|
            inside.contains(a) && adjacent(a, b) && open_cell(n, walls, b) ==> inside.contains(b),
    ensures
        region(n, walls, from).subset_of(inside),
{
    assert forall|p: Point| region(n, walls, from).contains(p) implies inside.contains(p) by {
        let path = choose|path: Seq<Point>| #[trigger]
            is_walk(n, walls, path) && path[0] == from && path.last() == p;
        lemma_walk_stays_inside(n, walls, inside, path, path.len() - 1);
    }
}

/// Fewer walls leave every walk a walk.
pub proof fn lemma_fewer_walls(n: int, walls: Set<Point>, fewer: Set<Point>, from: Point, to: Point)
    requires
        reachable(n, walls, from, to),
        fewer.subset_of(walls),
    ensures
        reachable(n, fewer, from, to),
{
    let path = choose|path: Seq<Point>| #[trigger]
        is_walk(n, walls, path) && path[0] == from && path.last() == to;
    assert forall|i: int| 0 < i < path.len() implies open_cell(n, fewer, #[trigger] path[i])
        && adjacent(path[i - 1], path[i]) by {
        assert(open_cell(n, walls, path[i]));
    }
    assert(is_walk(n, fewer, path));
}

/// The order of two cells of the grid by their place in it.
pub proof fn lemma_index_order(n: int, p: Point, q: Point)
    requires
        in_grid(n, p),
        in_grid(n, q),
        p.x < q.x || (p.x == q.x && p.y < q.y),
    ensures
        cell_index(n, p) < cell_index(n, q),
{
    if p.x < q.x {
        assert(p.x * n + n <= q.x * n) by (nonlinear_arith)
            requires
                p.x < q.x,
                0 < n,
        ;
    }
}

} // verus!
