//! A set of grid cells, kept as one flag per cell.

use crate::engine::Point;
use crate::grid::cell_index;
use crate::grid::in_grid;
use crate::grid::lemma_all_cells_len;
use crate::grid::lemma_index_in_range;
use crate::grid::lemma_index_injective;
use crate::grid::all_cells;
use crate::grid::MAX_GRID;
use vstd::prelude::*;
use vstd::set_lib::lemma_len_subset;

verus! {

/// A set of cells of the grid of side `side()`.
pub struct CellSet {
    side: i32,
    marks: Vec<bool>,
}

impl View for CellSet {
    type V = Set<Point>;

    closed spec fn view(&self) -> Set<Point> {
        Set::new(
            |p: Point|
                in_grid(self.side as int, p) && self.marks@[cell_index(self.side as int, p)],
        )
    }
}

impl CellSet {
    /// The side of the grid that the cells belong to.
    pub closed spec fn side(&self) -> int {
        self.side as int
    }

    /// There is one flag for every cell of the grid.
    pub closed spec fn wf(&self) -> bool {
        &&& 1 <= self.side <= MAX_GRID
        &&& self.marks@.len() == self.side * self.side
    }

    /// Only cells of the grid are members, so the set is finite.
    pub proof fn lemma_members(&self)
        requires
            self.wf(),
        ensures
            1 <= self.side() <= MAX_GRID,
            self@.subset_of(all_cells(self.side())),
            self@.finite(),
            self@.len() <= self.side() * self.side(),
    {
        lemma_all_cells_len(self.side as int);
        lemma_len_subset(self@, all_cells(self.side as int));
    }

    /// The empty set on the grid of side `side`.
    pub fn new(side: i32) -> (r: CellSet)
        requires
            1 <= side <= MAX_GRID,
        ensures
            r.wf(),
            r.side() == side,
            r@ == Set::<Point>::empty(),
    {
        assert(side * side <= MAX_GRID * MAX_GRID && 0 < side * side) by (nonlinear_arith)
            requires
                1 <= side <= MAX_GRID,
        ;
        let n: usize = side as usize;
        let total: usize = n * n;
        let mut marks: Vec<bool> = Vec::new();
        let mut k: usize = 0;
        while k < total
            invariant
                k <= total,
                marks@.len() == k,
                forall|j: int| 0 <= j < k ==> !marks@[j],
            decreases total - k,
        {
            marks.push(false);
            k += 1;
        }
        let r = CellSet { side, marks };
        proof {
            assert forall|p: Point| !r@.contains(p) by {
                if in_grid(side as int, p) {
                    lemma_index_in_range(side as int, p);
                }
            }
            assert(r@ =~= Set::<Point>::empty());
        }
        r
    }

    /// The side of the grid.
    pub fn grid_side(&self) -> (r: i32)
        requires
            self.wf(),
        ensures
            r == self.side(),
            1 <= r <= MAX_GRID,
    {
        self.side
    }

    /// Whether `p` is a member. A point off the grid never is.
    pub fn contains(&self, p: Point) -> (r: bool)
        requires
            self.wf(),
        ensures
            r == self@.contains(p),
    {
        if p.x < 0 || p.x >= self.side || p.y < 0 || p.y >= self.side {
            false
        } else {
            proof {
                lemma_index_in_range(self.side as int, p);
            }
            let n: usize = self.side as usize;
            let x: usize = p.x as usize;
            let y: usize = p.y as usize;
            assert(x * n == p.x * self.side);
            self.marks[x * n + y]
        }
    }

    /// Adds the cell `p`.
    pub fn insert(&mut self, p: Point)
        requires
            old(self).wf(),
            in_grid(old(self).side(), p),
        ensures
            final(self).wf(),
            final(self).side() == old(self).side(),
            final(self)@ == old(self)@.insert(p),
    {
        proof {
            lemma_index_in_range(self.side as int, p);
        }
        let n: usize = self.side as usize;
        let x: usize = p.x as usize;
        let y: usize = p.y as usize;
        assert(x * n == p.x * self.side);
        self.marks.set(x * n + y, true);
        proof {
            let side = self.side as int;
            assert forall|q: Point| self@.contains(q) <==> old(self)@.insert(p).contains(q) by {
                if in_grid(side, q) && q != p {
                    lemma_index_in_range(side, q);
                    if cell_index(side, q) == cell_index(side, p) {
                        lemma_index_injective(side, p, q);
                    }
                }
            }
            assert(self@ =~= old(self)@.insert(p));
        }
    }

    /// The set of the cells listed in `cells`.
    pub fn from_cells(side: i32, cells: &Vec<Point>) -> (r: CellSet)
        requires
            1 <= side <= MAX_GRID,
            forall|i: int| 0 <= i < cells@.len() ==> in_grid(side as int, #[trigger] cells@[i]),
        ensures
            r.wf(),
            r.side() == side,
            r@ == cells@.to_set(),
    {
        let mut r = CellSet::new(side);
        let mut k: usize = 0;
        while k < cells.len()
            invariant
                k <= cells@.len(),
                r.wf(),
                r.side() == side,
                forall|i: int| 0 <= i < cells@.len() ==> in_grid(side as int, #[trigger] cells@[i]),
                r@ == cells@.take(k as int).to_set(),
            decreases cells@.len() - k,
        {
            r.insert(cells[k]);
            proof {
                let before = cells@.take(k as int);
                assert(cells@.take(k as int + 1) == before.push(cells@[k as int]));
                before.lemma_push_to_set_commute(cells@[k as int]);
            }
            k += 1;
        }
        assert(cells@.take(k as int) == cells@);
        r
    }
}

} // verus!
