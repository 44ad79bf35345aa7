//! The snake game: grid, transition rule and reward rule.

use crate::cellset::CellSet;
use crate::flood::flood;
use crate::game_laws::lemma_opening_is_coherent;
use crate::game_laws::lemma_step_keeps_coherent;
use crate::grid::adjacent;
use crate::grid::cell_index;
use crate::grid::in_grid;
use crate::grid::lemma_distinct_cells_bound;
use crate::grid::lemma_index_order;
use crate::grid::lemma_reachable_self;
use crate::grid::open_cell;
use crate::grid::reachable;
use crate::grid::MAX_GRID;
use crate::random::random_below;
use crate::state::lemma_advance_wf;
use crate::state::lemma_moved_snake;
use crate::state::lemma_tail_in_reach;
use crate::state::manhattan;
use crate::state::placed_food;
use crate::state::spawn_ok;
use crate::state::GameState;
use vstd::prelude::*;

verus! {

/// One of the four headings on the grid. `Up` is towards smaller `y`.
#[derive(Clone, Copy, PartialEq, Eq, Structural, Debug)]
pub enum Direction {
    Up,
    Right,
    Down,
    Left,
}

impl Direction {
    /// The heading that points the other way.
    pub open spec fn opposite_spec(&self) -> Direction {
        match self {
            Direction::Up => Direction::Down,
            Direction::Down => Direction::Up,
            Direction::Left => Direction::Right,
            Direction::Right => Direction::Left,
        }
    }

    /// The change of `(x, y)` that one step in this heading makes.
    pub open spec fn delta_spec(&self) -> (int, int) {
        match self {
            Direction::Up => (0, -1),
            Direction::Right => (1, 0),
            Direction::Down => (0, 1),
            Direction::Left => (-1, 0),
        }
    }

    /// The heading that points the other way.
    #[verifier::when_used_as_spec(opposite_spec)]
    pub fn opposite(&self) -> (r: Direction)
        ensures
            r == self.opposite_spec(),
    {
        match self {
            Direction::Up => Direction::Down,
            Direction::Down => Direction::Up,
            Direction::Left => Direction::Right,
            Direction::Right => Direction::Left,
        }
    }

    /// The change of `(x, y)` that one step in this heading makes.
    pub fn delta(&self) -> (r: (i32, i32))
        ensures
            (r.0 as int, r.1 as int) == self.delta_spec(),
    {
        match self {
            Direction::Up => (0, -1),
            Direction::Right => (1, 0),
            Direction::Down => (0, 1),
            Direction::Left => (-1, 0),
        }
    }

    /// The heading that the action with index `action` asks for.
    pub fn from_action(action: usize) -> (r: Direction)
        requires
            action < 4,
        ensures
            r == heading_of(action as int),
    {
        ACTIONS[action]
    }
}

/// A grid cell.
#[derive(Clone, Copy, PartialEq, Eq, Structural, Debug)]
pub struct Point {
    pub x: i32,
    pub y: i32,
}

/// The headings in the order of their action indices.
pub const ACTIONS: [Direction; 4] = [
    Direction::Up,
    Direction::Right,
    Direction::Down,
    Direction::Left,
];

/// The heading of an action index, as `ACTIONS` lists them.
pub open spec fn heading_of(action: int) -> Direction {
    if action == 0 {
        Direction::Up
    } else if action == 1 {
        Direction::Right
    } else if action == 2 {
        Direction::Down
    } else {
        Direction::Left
    }
}

/// The smallest side on which the opening snake of three cells fits.
pub const MIN_GRID: i32 = 4;

/// What eating adds to the score.
pub const SCORE_PER_FOOD: i32 = 10;

/// The reward of the step that ends the game, in halves of a point.
pub const REWARD_TERMINAL: i32 = -20;

/// The reward of the step that eats, in halves of a point.
pub const REWARD_FOOD: i32 = 20;

/// The reward for coming nearer to the food, in halves of a point.
pub const REWARD_NEARER: i32 = 2;

/// The reward for not coming nearer to the food, in halves of a point.
pub const REWARD_NOT_NEARER: i32 = -2;

/// The reward when the head reaches fewer cells than the snake is long.
pub const REWARD_TRAPPED: i32 = -4;

/// The reward when the head reaches fewer cells than one and a half times
/// the snake's length.
pub const REWARD_CRAMPED: i32 = -1;

/// The reward when the head can still reach the tail.
pub const REWARD_TAIL_OPEN: i32 = 1;

/// The reward when the head is cut off from the tail.
pub const REWARD_TAIL_CUT: i32 = -2;

/// A reward, counted in halves of a point so that every value the reward rule
/// gives is a whole number. The reward in points is `halves / 2`.
#[derive(Clone, Copy, PartialEq, Eq, Structural, Debug)]
pub struct Reward {
    pub halves: i32,
}

/// The snake game: a square grid, the snake on it with its head first, the
/// food, and the counters.
pub struct SnakeEngine {
    pub grid_size: i32,
    pub snake: Vec<Point>,
    pub direction: Direction,
    pub food: Point,
    pub score: i32,
    pub game_over: bool,
    pub steps_without_food: i32,
}

impl View for SnakeEngine {
    type V = GameState;

    open spec fn view(&self) -> GameState {
        GameState {
            grid_size: self.grid_size as int,
            snake: self.snake@,
            direction: self.direction,
            food: self.food,
            score: self.score as int,
            game_over: self.game_over,
            steps_without_food: self.steps_without_food as int,
        }
    }
}

/// The number of steps between two cells of a grid.
fn steps_between(a: Point, b: Point) -> (r: i32)
    requires
        0 <= a.x <= MAX_GRID,
        0 <= a.y <= MAX_GRID,
        0 <= b.x <= MAX_GRID,
        0 <= b.y <= MAX_GRID,
    ensures
        r == manhattan(a, b),
{
    let dx: i32 = if a.x >= b.x {
        a.x - b.x
    } else {
        b.x - a.x
    };
    let dy: i32 = if a.y >= b.y {
        a.y - b.y
    } else {
        b.y - a.y
    };
    dx + dy
}

impl SnakeEngine {
    /// The snake lies on a grid of a side that the engine can handle.
    pub open spec fn on_grid(&self) -> bool {
        &&& 1 <= self.grid_size <= MAX_GRID
        &&& forall|i: int|
            0 <= i < self.snake@.len() ==> in_grid(self.grid_size as int, #[trigger] self.snake@[i])
    }

    /// Whether the state is one that the game can be played from.
    pub fn is_playable(&self) -> (r: bool)
        ensures
            r == self@.wf(),
    {
        let n: i32 = self.grid_size;
        if n < 1 || n > MAX_GRID || self.snake.len() == 0 {
            return false;
        }
        let mut seen = CellSet::new(n);
        let mut k: usize = 0;
        while k < self.snake.len()
            invariant
                1 <= n <= MAX_GRID,
                n == self.grid_size,
                k <= self.snake@.len(),
                seen.wf(),
                seen.side() == n,
                seen@ == self.snake@.take(k as int).to_set(),
                self.snake@.take(k as int).no_duplicates(),
                forall|i: int| 0 <= i < k ==> in_grid(n as int, #[trigger] self.snake@[i]),
            decreases self.snake@.len() - k,
        {
            let c = self.snake[k];
            let ghost before = self.snake@.take(k as int);
            let ghost after = self.snake@.take(k as int + 1);
            if c.x < 0 || c.x >= n || c.y < 0 || c.y >= n {
                assert(!in_grid(n as int, self.snake@[k as int]));
                return false;
            }
            if seen.contains(c) {
                proof {
                    let i = choose|i: int| 0 <= i < before.len() && before[i] == c;
                    assert(self.snake@[i] == self.snake@[k as int]);
                }
                return false;
            }
            seen.insert(c);
            proof {
                assert(after == before.push(c));
                assert forall|i: int, j: int|
                    0 <= i < after.len() && 0 <= j < after.len() && i != j implies after[i]
                    != after[j] by {
                    if i < k && j < k {
                        assert(before[i] == after[i] && before[j] == after[j]);
                    } else if i < k {
                        assert(before.contains(before[i]));
                    } else if j < k {
                        assert(before.contains(before[j]));
                    }
                }
                before.lemma_push_to_set_commute(c);
            }
            k += 1;
        }
        proof {
            assert(self.snake@.take(k as int) == self.snake@);
            lemma_distinct_cells_bound(n as int, self.snake@);
            assert(1 <= n * n <= 214739716) by (nonlinear_arith)
                requires
                    1 <= n <= 14654,
            ;
        }
        let area: i64 = (n as i64) * (n as i64);
        let len: i64 = self.snake.len() as i64;
        let hunger: i64 = self.steps_without_food as i64;
        let food_on_grid = 0 <= self.food.x && self.food.x < n && 0 <= self.food.y && self.food.y
            < n;
        let hunger_in_range = 0 <= hunger && hunger <= area + 1 && (self.game_over || hunger
            <= area);
        let score_has_room = (self.score as i64) + (SCORE_PER_FOOD as i64) * (area - len)
            <= 2147483647;
        food_on_grid && hunger_in_range && score_has_room
    }

    /// A new game on a grid of side `grid_size`.
    pub fn new(grid_size: i32) -> (r: SnakeEngine)
        requires
            MIN_GRID <= grid_size <= MAX_GRID,
        ensures
            r@.is_opening(grid_size as int),
            r@.wf(),
            r@.coherent(),
    {
        let mut engine = SnakeEngine {
            grid_size,
            snake: Vec::new(),
            direction: Direction::Right,
            food: Point { x: 0, y: 0 },
            score: 0,
            game_over: false,
            steps_without_food: 0,
        };
        engine.reset();
        engine
    }

    /// Starts the game anew: a snake of three cells in the middle of the
    /// grid, heading right, and food on a free cell.
    pub fn reset(&mut self)
        requires
            MIN_GRID <= old(self).grid_size <= MAX_GRID,
        ensures
            final(self)@.is_opening(old(self).grid_size as int),
            final(self)@.wf(),
            final(self)@.coherent(),
    {
        let mid: i32 = self.grid_size / 2;
        self.snake = vec![
            Point { x: mid, y: mid },
            Point { x: mid - 1, y: mid },
            Point { x: mid - 2, y: mid },
        ];
        self.direction = Direction::Right;
        self.score = 0;
        self.game_over = false;
        self.steps_without_food = 0;
        self.food = self.spawn_food();
        proof {
            let n = self.grid_size as int;
            assert(self.snake@ =~= seq![
                Point { x: (n / 2) as i32, y: (n / 2) as i32 },
                Point { x: (n / 2 - 1) as i32, y: (n / 2) as i32 },
                Point { x: (n / 2 - 2) as i32, y: (n / 2) as i32 },
            ]);
            assert(16 <= n * n <= 214739716) by (nonlinear_arith)
                requires
                    4 <= n <= 14654,
            ;
            lemma_opening_is_coherent(self@, n);
        }
    }

    /// Whether the snake covers `p`.
    pub fn occupies(&self, p: Point) -> (r: bool)
        ensures
            r == self.snake@.contains(p),
    {
        let mut k: usize = 0;
        while k < self.snake.len()
            invariant
                k <= self.snake@.len(),
                forall|i: int| 0 <= i < k ==> self.snake@[i] != p,
            decreases self.snake@.len() - k,
        {
            let c = self.snake[k];
            if c.x == p.x && c.y == p.y {
                return true;
            }
            k += 1;
        }
        false
    }

    /// The free cells of the grid, column after column.
    pub fn free_cells(&self) -> (r: Vec<Point>)
        requires
            self.on_grid(),
        ensures
            forall|p: Point| r@.contains(p) <==> open_cell(self.grid_size as int, self@.body(), p),
            forall|i: int, j: int|
                0 <= i < j < r@.len() ==> cell_index(self.grid_size as int, r@[i]) < cell_index(
                    self.grid_size as int,
                    r@[j],
                ),
    {
        let n: i32 = self.grid_size;
        let occupied = CellSet::from_cells(n, &self.snake);
        let mut free: Vec<Point> = Vec::new();
        let mut x: i32 = 0;
        while x < n
            invariant
                0 <= x <= n,
                1 <= n <= MAX_GRID,
                occupied.wf(),
                occupied.side() == n,
                forall|p: Point|
                    free@.contains(p) <==> open_cell(n as int, occupied@, p) && p.x < x,
                forall|i: int, j: int|
                    0 <= i < j < free@.len() ==> cell_index(n as int, free@[i]) < cell_index(
                        n as int,
                        free@[j],
                    ),
            decreases n - x,
        {
            let mut y: i32 = 0;
            while y < n
                invariant
                    0 <= x < n,
                    0 <= y <= n,
                    1 <= n <= MAX_GRID,
                    occupied.wf(),
                    occupied.side() == n,
                    forall|p: Point|
                        free@.contains(p) <==> open_cell(n as int, occupied@, p) && (p.x < x || (p.x
                            == x && p.y < y)),
                    forall|i: int, j: int|
                        0 <= i < j < free@.len() ==> cell_index(n as int, free@[i]) < cell_index(
                            n as int,
                            free@[j],
                        ),
                decreases n - y,
            {
                let p = Point { x, y };
                let ghost before = free@;
                if !occupied.contains(p) {
                    free.push(p);
                    proof {
                        assert forall|i: int, j: int| 0 <= i < j < free@.len() implies cell_index(
                            n as int,
                            free@[i],
                        ) < cell_index(n as int, free@[j]) by {
                            assert(free@[i] == before[i]);
                            if j < before.len() {
                                assert(free@[j] == before[j]);
                            } else {
                                assert(before.contains(before[i]));
                                lemma_index_order(n as int, before[i], p);
                            }
                        }
                        assert(free@[before.len() as int] == p);
                    }
                }
                proof {
                    assert forall|q: Point| free@.contains(q) <==> open_cell(n as int, occupied@, q)
                        && (q.x < x || (q.x == x && q.y < y + 1)) by {
                        if before.contains(q) {
                            let i = choose|i: int| 0 <= i < before.len() && before[i] == q;
                            assert(free@[i] == q);
                        }
                        if free@.contains(q) {
                            let i = choose|i: int| 0 <= i < free@.len() && free@[i] == q;
                            if i < before.len() {
                                assert(before[i] == q);
                            }
                        }
                    }
                }
                y += 1;
            }
            x += 1;
        }
        free
    }

    /// The food that the draw `pick` places: the cell at place `pick` among
    /// the free cells `free`, or the corner cell where no cell is free.
    pub fn food_at(free: &Vec<Point>, pick: usize) -> (r: Point)
        requires
            free@.len() == 0 || pick < free@.len(),
        ensures
            r == placed_food(free@, pick as int),
    {
        if free.len() == 0 {
            Point { x: 0, y: 0 }
        } else {
            free[pick]
        }
    }

    /// A place for new food: one of the free cells, picked by chance, or the
    /// corner cell where the snake has left none.
    pub fn spawn_food(&self) -> (r: Point)
        requires
            self.on_grid(),
        ensures
            spawn_ok(self.grid_size as int, self@.body(), r),
    {
        let free = self.free_cells();
        let pick: usize = if free.len() == 0 {
            0
        } else {
            random_below(free.len())
        };
        proof {
            if free@.len() == 0 {
                assert forall|p: Point| !open_cell(self.grid_size as int, self@.body(), p) by {
                    assert(!free@.contains(p));
                }
            } else {
                assert(free@.contains(free@[pick as int]));
            }
        }
        SnakeEngine::food_at(&free, pick)
    }

    /// The number of cells that the head reaches over free cells, its own
    /// cell counted.
    pub fn flood_fill_from_head(&self) -> (r: u32)
        requires
            self@.wf(),
        ensures
            r == self@.space(),
            1 <= r <= self@.area(),
    {
        let occupied = CellSet::from_cells(self.grid_size, &self.snake);
        let found = flood(&occupied, self.snake[0]);
        found.1
    }

    /// Whether the head reaches the tail's cell, taken as free because the
    /// tail leaves it with the next move.
    pub fn can_reach_tail(&self) -> (r: bool)
        requires
            self@.wf(),
        ensures
            r == self@.tail_in_reach(),
    {
        let len: usize = self.snake.len();
        let head = self.snake[0];
        let tail = self.snake[len - 1];
        if len == 1 {
            proof {
                lemma_reachable_self(
                    self.grid_size as int,
                    self@.body().remove(tail),
                    head,
                );
            }
            return true;
        }
        let occupied = CellSet::from_cells(self.grid_size, &self.snake);
        let found = flood(&occupied, head);
        assert(in_grid(self.grid_size as int, self.snake@[len - 1]));
        let up = Point { x: tail.x, y: tail.y - 1 };
        let right = Point { x: tail.x + 1, y: tail.y };
        let down = Point { x: tail.x, y: tail.y + 1 };
        let left = Point { x: tail.x - 1, y: tail.y };
        let r = found.0.contains(up) || found.0.contains(right) || found.0.contains(down)
            || found.0.contains(left);
        proof {
            lemma_tail_in_reach(self@);
            if r {
                let c = if found.0@.contains(up) {
                    up
                } else if found.0@.contains(right) {
                    right
                } else if found.0@.contains(down) {
                    down
                } else {
                    left
                };
                assert(reachable(self.grid_size as int, self@.body(), head, c) && adjacent(c, tail));
            } else {
                assert forall|c: Point|
                    !(reachable(self.grid_size as int, self@.body(), head, c) && #[trigger] adjacent(
                        c,
                        tail,
                    )) by {
                    if adjacent(c, tail) {
                        assert(c == up || c == right || c == down || c == left);
                    }
                }
            }
        }
        r
    }

    /// Moves the snake one cell in its heading: the game ends where the cell
    /// lies off the grid or on the snake; the snake grows and new food is
    /// placed where the cell holds the food; else the tail follows.
    pub fn update(&mut self)
        requires
            old(self)@.wf(),
        ensures
            final(self)@ == old(self)@.advance(final(self).food),
            final(self)@.wf(),
            !old(self).game_over && old(self)@.feeds() ==> spawn_ok(
                final(self).grid_size as int,
                final(self)@.body(),
                final(self).food,
            ),
    {
        if self.game_over {
            return ;
        }
        let (dx, dy) = self.direction.delta();
        let head = self.snake[0];
        assert(in_grid(self.grid_size as int, self.snake@[0]));
        let new_head = Point { x: head.x + dx, y: head.y + dy };
        assert(new_head == self@.next_cell());
        if new_head.x < 0 || new_head.x >= self.grid_size || new_head.y < 0 || new_head.y
            >= self.grid_size {
            self.game_over = true;
            assert(self@ =~= old(self)@.advance(self.food));
            return ;
        }
        if self.occupies(new_head) {
            self.game_over = true;
            assert(self@ =~= old(self)@.advance(self.food));
            return ;
        }
        proof {
            lemma_moved_snake(self.grid_size as int, self.snake@, new_head);
            lemma_distinct_cells_bound(self.grid_size as int, seq![new_head] + self.snake@);
        }
        self.snake.insert(0, new_head);
        assert(self.snake@ =~= seq![new_head] + old(self).snake@);
        if new_head.x == self.food.x && new_head.y == self.food.y {
            self.score += SCORE_PER_FOOD;
            self.food = self.spawn_food();
            proof {
                let corner = Point { x: 0, y: 0 };
                assert(in_grid(self.grid_size as int, corner));
                assert(self@ =~= old(self)@.advance(self.food));
                lemma_advance_wf(old(self)@, self.food);
            }
        } else {
            self.snake.pop();
            proof {
                assert(self.snake@ =~= seq![new_head] + old(self).snake@.drop_last());
                assert(self@ =~= old(self)@.advance(self.food));
                lemma_advance_wf(old(self)@, self.food);
            }
        }
    }

    /// Plays one step: turns as `action` asks unless that reverses the snake,
    /// moves, and gives the reward of the move and whether the game is over.
    /// Once the game is over a step changes nothing.
    pub fn step(&mut self, action: usize) -> (r: (Reward, bool))
        requires
            old(self)@.wf(),
            action < 4,
        ensures
            final(self)@ == old(self)@.step(action as int, final(self).food),
            final(self)@.wf(),
            !old(self).game_over && old(self)@.turned(action as int).feeds() ==> spawn_ok(
                final(self).grid_size as int,
                final(self)@.body(),
                final(self).food,
            ),
            old(self)@.coherent() ==> final(self)@.coherent(),
            r.0.halves == old(self)@.reward(action as int),
            r.1 == final(self).game_over,
    {
        if self.game_over {
            return (Reward { halves: REWARD_TERMINAL }, true);
        }
        let dir = Direction::from_action(action);
        if dir.opposite() != self.direction {
            self.direction = dir;
        }
        assert(self@ =~= old(self)@.turned(action as int));
        let ghost turned = self@;
        let head = self.snake[0];
        assert(in_grid(self.grid_size as int, self.snake@[0]));
        let prev_dist: i32 = steps_between(head, self.food);
        let prev_score: i32 = self.score;
        self.update();
        let ghost moved = self@;
        assert(moved.food == old(self).food || turned.feeds());
        let reward: i32;
        if self.game_over {
            reward = REWARD_TERMINAL;
        } else if self.score > prev_score {
            reward = REWARD_FOOD;
            self.steps_without_food = 0;
        } else {
            assert(self.grid_size * self.grid_size <= 214739716) by (nonlinear_arith)
                requires
                    1 <= self.grid_size <= 14654,
            ;
            self.steps_without_food += 1;
            let area: i32 = self.grid_size * self.grid_size;
            if self.steps_without_food > area {
                self.game_over = true;
                reward = REWARD_TERMINAL;
            } else {
                let new_head = self.snake[0];
                assert(in_grid(self.grid_size as int, self.snake@[0]));
                let new_dist: i32 = steps_between(new_head, self.food);
                let approach: i32 = if new_dist < prev_dist {
                    REWARD_NEARER
                } else {
                    REWARD_NOT_NEARER
                };
                proof {
                    lemma_distinct_cells_bound(self.grid_size as int, self.snake@);
                    assert(self@.wf());
                    assert(self@.space() == moved.space());
                    assert(self@.tail_in_reach() == moved.tail_in_reach());
                }
                let len: u64 = self.snake.len() as u64;
                let safety: i32 = if 20 * len > 3 * (area as u64) {
                    let room: u64 = self.flood_fill_from_head() as u64;
                    let space_term: i32 = if room < len {
                        REWARD_TRAPPED
                    } else if 2 * room < 3 * len {
                        REWARD_CRAMPED
                    } else {
                        0
                    };
                    let tail_term: i32 = if self.can_reach_tail() {
                        REWARD_TAIL_OPEN
                    } else {
                        REWARD_TAIL_CUT
                    };
                    space_term + tail_term
                } else {
                    0
                };
                reward = approach + safety;
            }
        }
        proof {
            assert(self@ =~= old(self)@.step(action as int, self.food));
            if old(self)@.coherent() {
                lemma_step_keeps_coherent(old(self)@, action as int, self.food);
            }
        }
        (Reward { halves: reward }, self.game_over)
    }
}

} // verus!
