//! What holds of every game: the laws of the transition and reward rules.

use crate::engine::heading_of;
use crate::state::spawn_ok;
use crate::engine::Direction;
use crate::state::GameState;
use crate::engine::Point;
use crate::engine::MIN_GRID;
use crate::engine::REWARD_FOOD;
use crate::engine::REWARD_TERMINAL;
use crate::engine::SCORE_PER_FOOD;
use crate::grid::all_cells;
use crate::grid::in_grid;
use crate::grid::lemma_all_cells_len;
use crate::grid::lemma_distinct_cells_bound;
use crate::grid::open_cell;
use crate::grid::MAX_GRID;
use vstd::prelude::*;
use vstd::set_lib::lemma_len_subset;

verus! {

/// A snake that leaves no cell free is as long as the grid has cells.
pub proof fn lemma_full_grid(s: GameState)
    requires
        s.wf(),
        forall|p: Point| !open_cell(s.grid_size, s.body(), p),
    ensures
        s.snake.len() == s.area(),
{
    lemma_distinct_cells_bound(s.grid_size, s.snake);
    lemma_all_cells_len(s.grid_size);
    assert(all_cells(s.grid_size).subset_of(s.body())) by {
        assert forall|p: Point| all_cells(s.grid_size).contains(p) implies s.body().contains(p) by {
            assert(!open_cell(s.grid_size, s.body(), p));
        }
    }
    lemma_len_subset(all_cells(s.grid_size), s.body());
}

/// A snake that fills the grid cannot move: every cell next to its head lies
/// off the grid or on the snake.
pub proof fn lemma_full_grid_blocks(s: GameState)
    requires
        s.wf(),
        s.snake.len() == s.area(),
    ensures
        s.blocked(),
{
    lemma_distinct_cells_bound(s.grid_size, s.snake);
    lemma_all_cells_len(s.grid_size);
    if !s.blocked() {
        let next = s.next_cell();
        let more = s.body().insert(next);
        assert(more.subset_of(all_cells(s.grid_size))) by {
            assert forall|p: Point| more.contains(p) implies all_cells(s.grid_size).contains(p) by {
                if p != next {
                    let i = choose|i: int| 0 <= i < s.snake.len() && s.snake[i] == p;
                    assert(in_grid(s.grid_size, s.snake[i]));
                }
            }
        }
        lemma_len_subset(more, all_cells(s.grid_size));
    }
}

/// The opening state is playable and coherent.
pub proof fn lemma_opening_is_coherent(s: GameState, n: int)
    requires
        MIN_GRID <= n <= MAX_GRID,
        s.is_opening(n),
    ensures
        s.wf(),
        s.coherent(),
{
    assert(16 <= n * n <= 214739716) by (nonlinear_arith)
        requires
            4 <= n <= 14654,
    ;
    let corner = Point { x: 0, y: 0 };
    assert(open_cell(n, s.body(), corner));
}

/// A step keeps a coherent state coherent: while the game runs the head
/// lies one step ahead of the second cell in the heading, and the food lies
/// off the snake unless the snake fills the grid. `spawned` stands for the
/// food that chance places when the snake eats.
pub proof fn lemma_step_keeps_coherent(s: GameState, action: int, spawned: Point)
    requires
        s.wf(),
        s.coherent(),
        s.turned(action).feeds() ==> spawn_ok(
            s.grid_size,
            s.step(action, spawned).body(),
            spawned,
        ),
    ensures
        s.step(action, spawned).coherent(),
{
    let turned = s.turned(action);
    let after = s.step(action, spawned);
    if !s.game_over && !turned.blocked() {
        let next = turned.next_cell();
        assert(after.snake[0] == next);
        assert(after.snake.len() >= 2 ==> after.snake[1] == s.snake[0]);
        if turned.feeds() {
            crate::state::lemma_moved_snake(s.grid_size, s.snake, next);
            crate::state::lemma_step_wf(s, action, Point { x: 0, y: 0 });
            if !exists|p: Point| open_cell(s.grid_size, after.body(), p) {
                let filled = GameState { food: Point { x: 0, y: 0 }, ..after };
                assert(filled == s.step(action, Point { x: 0, y: 0 }));
                lemma_full_grid(filled);
            }
        } else {
            if s.snake.len() == s.area() {
                lemma_full_grid_blocks(turned);
            }
            if after.body().contains(s.food) {
                let i = choose|i: int| 0 <= i < after.snake.len() && after.snake[i] == s.food;
                if i > 0 {
                    assert(after.snake[i] == s.snake[i - 1]);
                    assert(s.body().contains(s.snake[i - 1]));
                }
            }
        }
    }
}

/// An action that asks for the reverse of the heading is ignored: the heading
/// stays, and the head moves on in it unless it is blocked.
pub proof fn lemma_reverse_is_ignored(s: GameState, action: int, spawned: Point)
    requires
        s.wf(),
        !s.game_over,
        heading_of(action) == s.direction.opposite_spec(),
    ensures
        s.turned(action) == s,
        s.step(action, spawned).direction == s.direction,
        !s.blocked() ==> s.step(action, spawned).head() == s.next_cell(),
{
    let turned = s.turned(action);
    assert(heading_of(action).opposite_spec() == s.direction);
    assert(turned == s);
    if !s.blocked() {
        assert(s.step(action, spawned).snake[0] == s.next_cell());
    }
}

/// From the opening state the action `Left`, the reverse of the opening
/// heading, leaves the snake heading right, and the head moves one cell to
/// the right.
pub proof fn lemma_opening_ignores_reverse(s: GameState, n: int, spawned: Point)
    requires
        MIN_GRID <= n <= MAX_GRID,
        s.is_opening(n),
    ensures
        s.step(3, spawned).direction == Direction::Right,
        !s.step(3, spawned).game_over,
        s.step(3, spawned).head() == (Point { x: (n / 2 + 1) as i32, y: (n / 2) as i32 }),
{
    lemma_opening_is_coherent(s, n);
    lemma_reverse_is_ignored(s, 3, spawned);
    let next = Point { x: (n / 2 + 1) as i32, y: (n / 2) as i32 };
    assert(s.next_cell() == next);
    assert(16 <= n * n) by (nonlinear_arith)
        requires
            4 <= n,
    ;
    if s.body().contains(next) {
        let i = choose|i: int| 0 <= i < s.snake.len() && s.snake[i] == next;
    }
    assert(!s.blocked());
}

/// Moving the head onto the food adds `SCORE_PER_FOOD` to the score and one
/// cell to the snake, keeps the game running, gives the food reward, and
/// places new food. That food lies off the snake as long as the snake leaves
/// a cell free. `spawned` stands for the food that chance places.
pub proof fn lemma_eating(s: GameState, action: int, spawned: Point)
    requires
        s.wf(),
        !s.game_over,
        s.turned(action).feeds(),
        spawn_ok(s.grid_size, s.step(action, spawned).body(), spawned),
    ensures
        s.step(action, spawned).score == s.score + SCORE_PER_FOOD,
        s.step(action, spawned).snake.len() == s.snake.len() + 1,
        s.step(action, spawned).snake == seq![s.turned(action).next_cell()] + s.snake,
        s.step(action, spawned).steps_without_food == 0,
        !s.step(action, spawned).game_over,
        s.step(action, spawned).food == spawned,
        s.reward(action) == REWARD_FOOD,
        s.step(action, spawned).snake.len() < s.area() ==> !s.step(action, spawned).body().contains(
            spawned,
        ),
{
    let after = s.step(action, spawned);
    if after.snake.len() < s.area() && after.body().contains(spawned) {
        crate::state::lemma_step_wf(s, action, Point { x: 0, y: 0 });
        let filled = GameState { food: Point { x: 0, y: 0 }, ..after };
        assert(filled == s.step(action, Point { x: 0, y: 0 }));
        lemma_full_grid(filled);
    }
}

/// Moving the head off the grid or onto the snake ends the game, with the
/// terminal reward, from every state in which the game still runs.
pub proof fn lemma_crash_ends_game(s: GameState, action: int, spawned: Point)
    requires
        !s.game_over,
        s.turned(action).blocked(),
    ensures
        s.step(action, spawned).game_over,
        s.step(action, spawned).snake == s.snake,
        s.step(action, spawned).score == s.score,
        s.reward(action) == REWARD_TERMINAL,
{
}

/// A move that neither eats nor crashes, after as many steps without food as
/// the grid has cells, ends the game with the terminal reward.
pub proof fn lemma_hunger_ends_game(s: GameState, action: int, spawned: Point)
    requires
        !s.game_over,
        !s.turned(action).blocked(),
        !s.turned(action).feeds(),
        s.steps_without_food >= s.area(),
    ensures
        s.step(action, spawned).game_over,
        s.reward(action) == REWARD_TERMINAL,
{
}

/// Once the game is over, a step changes nothing and gives the terminal
/// reward.
pub proof fn lemma_game_over_is_final(s: GameState, action: int, spawned: Point)
    requires
        s.game_over,
    ensures
        s.step(action, spawned) == s,
        s.reward(action) == REWARD_TERMINAL,
{
}

} // verus!
