//! The game as a mathematical value, and the rules of the game stated of it.

use crate::engine::heading_of;
use crate::engine::Direction;
use crate::engine::Point;
use crate::engine::REWARD_CRAMPED;
use crate::engine::REWARD_FOOD;
use crate::engine::REWARD_NEARER;
use crate::engine::REWARD_NOT_NEARER;
use crate::engine::REWARD_TAIL_CUT;
use crate::engine::REWARD_TAIL_OPEN;
use crate::engine::REWARD_TERMINAL;
use crate::engine::REWARD_TRAPPED;
use crate::engine::SCORE_PER_FOOD;
use crate::grid::adjacent;
use crate::grid::in_grid;
use crate::grid::is_walk;
use crate::grid::lemma_distinct_cells_bound;
use crate::grid::lemma_fewer_walls;
use crate::grid::lemma_reachable_step;
use crate::grid::open_cell;
use crate::grid::reachable;
use crate::grid::region;
use crate::grid::MAX_GRID;
use vstd::prelude::*;

verus! {

/// `|a - b|`.
pub open spec fn gap(a: int, b: int) -> int {
    if a >= b {
        a - b
    } else {
        b - a
    }
}

/// The number of steps from `a` to `b` on an empty grid.
pub open spec fn manhattan(a: Point, b: Point) -> int {
    gap(a.x as int, b.x as int) + gap(a.y as int, b.y as int)
}

/// `food` is a cell that spawning may pick on a grid of side `n` where the
/// snake covers `body`: a free cell if there is one, else the corner cell.
pub open spec fn spawn_ok(n: int, body: Set<Point>, food: Point) -> bool {
    if exists|p: Point| open_cell(n, body, p) {
        open_cell(n, body, food)
    } else {
        food == (Point { x: 0, y: 0 })
    }
}

/// The food that the draw `pick` places among the free cells `free`: the
/// cell at place `pick`, or the corner cell where no cell is free.
pub open spec fn placed_food(free: Seq<Point>, pick: int) -> Point {
    if free.len() == 0 {
        Point { x: 0, y: 0 }
    } else {
        free[pick]
    }
}

/// The game as a mathematical value: what a `SnakeEngine` stands for.
pub struct GameState {
    pub grid_size: int,
    pub snake: Seq<Point>,
    pub direction: Direction,
    pub food: Point,
    pub score: int,
    pub game_over: bool,
    pub steps_without_food: int,
}

impl GameState {
    /// The number of cells of the grid.
    pub open spec fn area(self) -> int {
        self.grid_size * self.grid_size
    }

    /// The cell of the snake's head.
    pub open spec fn head(self) -> Point {
        self.snake[0]
    }

    /// The cell of the snake's tail.
    pub open spec fn tail(self) -> Point {
        self.snake.last()
    }

    /// The cells that the snake covers.
    pub open spec fn body(self) -> Set<Point> {
        self.snake.to_set()
    }

    /// The state is one that the game can be played from: the snake lies on
    /// the grid and covers no cell twice, the food lies on the grid, and the
    /// counters leave room for the steps to come.
    pub open spec fn wf(self) -> bool {
        &&& 1 <= self.grid_size <= MAX_GRID
        &&& self.snake.len() >= 1
        &&& forall|i: int|
            0 <= i < self.snake.len() ==> in_grid(self.grid_size, #[trigger] self.snake[i])
        &&& self.snake.no_duplicates()
        &&& in_grid(self.grid_size, self.food)
        &&& 0 <= self.steps_without_food <= self.area() + 1
        &&& !self.game_over ==> self.steps_without_food <= self.area()
        &&& self.score + SCORE_PER_FOOD * (self.area() - self.snake.len()) <= i32::MAX
    }

    /// What holds, beyond `wf`, of every state that a game reaches: while the
    /// game runs, the head lies one step from the second cell in the heading,
    /// and the food lies off the snake unless the snake fills the grid.
    pub open spec fn coherent(self) -> bool {
        &&& !self.game_over && self.snake.len() >= 2 ==> {
            &&& self.head().x == self.snake[1].x + self.direction.delta_spec().0
            &&& self.head().y == self.snake[1].y + self.direction.delta_spec().1
        }
        &&& self.body().contains(self.food) ==> self.snake.len() == self.area()
    }

    /// The state that a game on a grid of side `n` opens with, but for the
    /// food, which chance places.
    pub open spec fn is_opening(self, n: int) -> bool {
        &&& self.grid_size == n
        &&& self.snake == seq![
            Point { x: (n / 2) as i32, y: (n / 2) as i32 },
            Point { x: (n / 2 - 1) as i32, y: (n / 2) as i32 },
            Point { x: (n / 2 - 2) as i32, y: (n / 2) as i32 },
        ]
        &&& self.direction == Direction::Right
        &&& self.score == 0
        &&& !self.game_over
        &&& self.steps_without_food == 0
        &&& spawn_ok(n, self.body(), self.food)
    }

    /// The state after the heading was set as `action` asks: the heading of
    /// the action, unless that is the reverse of the present one.
    pub open spec fn turned(self, action: int) -> GameState {
        GameState {
            direction: if heading_of(action).opposite_spec() != self.direction {
                heading_of(action)
            } else {
                self.direction
            },
            ..self
        }
    }

    /// The cell that the head moves to next.
    pub open spec fn next_cell(self) -> Point {
        Point {
            x: (self.head().x + self.direction.delta_spec().0) as i32,
            y: (self.head().y + self.direction.delta_spec().1) as i32,
        }
    }

    /// The next cell lies off the grid or on the snake.
    pub open spec fn blocked(self) -> bool {
        !in_grid(self.grid_size, self.next_cell()) || self.body().contains(self.next_cell())
    }

    /// The next cell is free and holds the food.
    pub open spec fn feeds(self) -> bool {
        !self.blocked() && self.next_cell() == self.food
    }

    /// The state after the snake moved one cell in its heading. Where it
    /// eats, `spawned` is the new food.
    pub open spec fn advance(self, spawned: Point) -> GameState {
        if self.game_over {
            self
        } else if self.blocked() {
            GameState { game_over: true, ..self }
        } else if self.feeds() {
            GameState {
                snake: seq![self.next_cell()] + self.snake,
                score: self.score + SCORE_PER_FOOD,
                food: spawned,
                ..self
            }
        } else {
            GameState { snake: seq![self.next_cell()] + self.snake.drop_last(), ..self }
        }
    }

    /// A step with `action` ends the game by hunger: the snake moves without
    /// eating and has then gone more steps without food than the grid has
    /// cells.
    pub open spec fn starves(self, action: int) -> bool {
        &&& !self.turned(action).blocked()
        &&& !self.turned(action).feeds()
        &&& self.steps_without_food + 1 > self.area()
    }

    /// The state after a step with `action`. Where the snake eats, `spawned`
    /// is the new food. A game that is over stays as it is.
    pub open spec fn step(self, action: int, spawned: Point) -> GameState {
        let turned = self.turned(action);
        let moved = turned.advance(spawned);
        if self.game_over {
            self
        } else if turned.blocked() {
            moved
        } else if turned.feeds() {
            GameState { steps_without_food: 0, ..moved }
        } else {
            GameState {
                steps_without_food: self.steps_without_food + 1,
                game_over: self.starves(action),
                ..moved
            }
        }
    }

    /// The number of cells that a walk from the head reaches over free
    /// cells, the head's own cell counted.
    pub open spec fn space(self) -> nat {
        region(self.grid_size, self.body(), self.head()).len()
    }

    /// A walk from the head reaches the tail's cell once the tail has left
    /// it.
    pub open spec fn tail_in_reach(self) -> bool {
        reachable(self.grid_size, self.body().remove(self.tail()), self.head(), self.tail())
    }

    /// The snake is long enough for the safety term: longer than 15% of the
    /// grid's cells.
    pub open spec fn is_long(self) -> bool {
        20 * self.snake.len() > 3 * self.area()
    }

    /// The part of the reward that looks at the room left to the head.
    pub open spec fn space_term(self) -> int {
        if self.space() < self.snake.len() {
            REWARD_TRAPPED as int
        } else if 2 * self.space() < 3 * self.snake.len() {
            REWARD_CRAMPED as int
        } else {
            0
        }
    }

    /// The part of the reward that looks at the way to the tail.
    pub open spec fn tail_term(self) -> int {
        if self.tail_in_reach() {
            REWARD_TAIL_OPEN as int
        } else {
            REWARD_TAIL_CUT as int
        }
    }

    /// The safety term of the reward in this state, in halves of a point.
    pub open spec fn safety(self) -> int {
        if self.is_long() {
            self.space_term() + self.tail_term()
        } else {
            0
        }
    }

    /// The reward of a step with `action`, in halves of a point.
    pub open spec fn reward(self, action: int) -> int {
        let turned = self.turned(action);
        let moved = turned.advance(self.food);
        if self.game_over || turned.blocked() || self.starves(action) {
            REWARD_TERMINAL as int
        } else if turned.feeds() {
            REWARD_FOOD as int
        } else if manhattan(moved.head(), self.food) < manhattan(self.head(), self.food) {
            REWARD_NEARER + moved.safety()
        } else {
            REWARD_NOT_NEARER + moved.safety()
        }
    }
}

/// The snake after its head moved to `next`, grown by one cell or not, lies on
/// the grid and covers no cell twice.
pub proof fn lemma_moved_snake(n: int, snake: Seq<Point>, next: Point)
    requires
        snake.len() >= 1,
        forall|i: int| 0 <= i < snake.len() ==> in_grid(n, #[trigger] snake[i]),
        snake.no_duplicates(),
        in_grid(n, next),
        !snake.contains(next),
    ensures
        (seq![next] + snake).no_duplicates(),
        (seq![next] + snake.drop_last()).no_duplicates(),
        forall|i: int|
            0 <= i < (seq![next] + snake).len() ==> in_grid(n, #[trigger] (seq![next] + snake)[i]),
        forall|i: int|
            0 <= i < (seq![next] + snake.drop_last()).len() ==> in_grid(
                n,
                #[trigger] (seq![next] + snake.drop_last())[i],
            ),
{
    let grown = seq![next] + snake;
    let slid = seq![next] + snake.drop_last();
    assert forall|i: int, j: int| 0 <= i < grown.len() && 0 <= j < grown.len() && i != j implies grown[i]
        != grown[j] by {
        if i > 0 {
            assert(grown[i] == snake[i - 1]);
        }
        if j > 0 {
            assert(grown[j] == snake[j - 1]);
        }
    }
    assert forall|i: int, j: int| 0 <= i < slid.len() && 0 <= j < slid.len() && i != j implies slid[i]
        != slid[j] by {
        if i > 0 {
            assert(slid[i] == snake[i - 1]);
        }
        if j > 0 {
            assert(slid[j] == snake[j - 1]);
        }
    }
    assert forall|i: int| 0 <= i < grown.len() implies in_grid(n, #[trigger] grown[i]) by {
        if i > 0 {
            assert(grown[i] == snake[i - 1]);
        }
    }
    assert forall|i: int| 0 <= i < slid.len() implies in_grid(n, #[trigger] slid[i]) by {
        if i > 0 {
            assert(slid[i] == snake[i - 1]);
        }
    }
}

/// A move leaves a playable state playable.
pub proof fn lemma_advance_wf(s: GameState, spawned: Point)
    requires
        s.wf(),
        in_grid(s.grid_size, spawned),
    ensures
        s.advance(spawned).wf(),
{
    if !s.game_over && !s.blocked() {
        lemma_moved_snake(s.grid_size, s.snake, s.next_cell());
        if s.feeds() {
            lemma_distinct_cells_bound(s.grid_size, seq![s.next_cell()] + s.snake);
        }
    }
}

/// A step leaves a playable state playable.
pub proof fn lemma_step_wf(s: GameState, action: int, spawned: Point)
    requires
        s.wf(),
        in_grid(s.grid_size, spawned),
    ensures
        s.step(action, spawned).wf(),
{
    lemma_advance_wf(s.turned(action), spawned);
}

/// The first place at which `path` holds `target`, given that it holds it at
/// `at`.
proof fn first_visit(path: Seq<Point>, target: Point, at: int) -> (k: int)
    requires
        0 <= at < path.len(),
        path[at] == target,
    ensures
        0 <= k <= at,
        path[k] == target,
        forall|j: int| 0 <= j < k ==> path[j] != target,
    decreases at,
{
    if exists|j: int| 0 <= j < at && path[j] == target {
        let j = choose|j: int| 0 <= j < at && path[j] == target;
        first_visit(path, target, j)
    } else {
        at
    }
}

/// With a snake of two cells or more, the head reaches the tail's cell, once
/// the tail has left it, exactly if some cell next to the tail lies in the
/// head's region.
pub proof fn lemma_tail_in_reach(s: GameState)
    requires
        s.wf(),
        s.snake.len() >= 2,
    ensures
        s.tail_in_reach() <==> exists|c: Point|
            reachable(s.grid_size, s.body(), s.head(), c) && #[trigger] adjacent(c, s.tail()),
{
    let n = s.grid_size;
    let head = s.head();
    let tail = s.tail();
    let open = s.body().remove(tail);
    assert(in_grid(n, s.snake[s.snake.len() - 1]));
    if exists|c: Point| reachable(n, s.body(), head, c) && #[trigger] adjacent(c, tail) {
        let c = choose|c: Point| reachable(n, s.body(), head, c) && #[trigger] adjacent(c, tail);
        lemma_fewer_walls(n, s.body(), open, head, c);
        lemma_reachable_step(n, open, head, c, tail);
    }
    if s.tail_in_reach() {
        let path = choose|path: Seq<Point>| #[trigger]
            is_walk(n, open, path) && path[0] == head && path.last() == tail;
        let k = first_visit(path, tail, path.len() - 1);
        assert(head != tail) by {
            assert(s.snake[0] != s.snake[s.snake.len() - 1]);
        }
        let short = path.take(k);
        assert forall|i: int| 0 < i < short.len() implies open_cell(n, s.body(), #[trigger] short[i])
            && adjacent(short[i - 1], short[i]) by {
            assert(short[i] == path[i]);
            assert(short[i - 1] == path[i - 1]);
            assert(open_cell(n, open, path[i]));
        }
        assert(is_walk(n, s.body(), short));
        assert(short[0] == head && short.last() == path[k - 1]);
        assert(reachable(n, s.body(), head, path[k - 1]));
        assert(open_cell(n, open, path[k]) && adjacent(path[k - 1], path[k]));
    }
}

} // verus!
