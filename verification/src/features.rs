//! The feature vector: what the policy network is shown of a game state.
//!
//! Every feature is an exact fraction. Turning it into a floating-point
//! number is one division, left to the caller.

use crate::cellset::CellSet;
use crate::engine::Direction;
use crate::state::GameState;
use crate::engine::Point;
use crate::engine::SnakeEngine;
use crate::flood::flood;
use crate::grid::adjacent;
use crate::grid::all_cells;
use crate::grid::in_grid;
use crate::grid::lemma_all_cells_len;
use crate::grid::lemma_closed_set_holds_region;
use crate::grid::lemma_distinct_cells_bound;
use crate::grid::lemma_reachable_self;
use crate::grid::lemma_reachable_step;
use crate::grid::lemma_reached_is_open;
use crate::grid::open_cell;
use crate::grid::open_cells;
use crate::grid::region;
use vstd::prelude::*;
use vstd::set_lib::lemma_len_subset;
use vstd::set_lib::lemma_set_difference_len;

verus! {

/// The number of features.
pub const FEATURE_COUNT: usize = 28;

/// The place, among the features, of the share of the free cells that the
/// head reaches.
pub const FLOOD_SHARE_AT: usize = 22;

/// The fraction `num / den`. In a feature `den` is positive.
#[derive(Clone, Copy, PartialEq, Eq, Structural, Debug)]
pub struct Ratio {
    pub num: i32,
    pub den: i32,
}

/// One or zero, as a fraction.
pub open spec fn flag(b: bool) -> Ratio {
    Ratio { num: if b { 1i32 } else { 0i32 }, den: 1 }
}

/// `num / den`, as a fraction.
pub open spec fn ratio(num: int, den: int) -> Ratio {
    Ratio { num: num as i32, den: den as i32 }
}

/// The sign of `v`: -1, 0 or 1.
pub open spec fn sign(v: int) -> int {
    if v > 0 {
        1
    } else if v < 0 {
        -1
    } else {
        0
    }
}

/// The headings straight on, to the right and to the left of `dir`.
pub open spec fn relative_dirs_spec(dir: Direction) -> (Direction, Direction, Direction) {
    match dir {
        Direction::Up => (Direction::Up, Direction::Right, Direction::Left),
        Direction::Right => (Direction::Right, Direction::Down, Direction::Up),
        Direction::Down => (Direction::Down, Direction::Left, Direction::Right),
        Direction::Left => (Direction::Left, Direction::Up, Direction::Down),
    }
}

/// The cell `(x, y)` lies off the grid or on the snake.
pub open spec fn collides(s: GameState, x: int, y: int) -> bool {
    !(0 <= x < s.grid_size && 0 <= y < s.grid_size) || s.body().contains(
        Point { x: x as i32, y: y as i32 },
    )
}

/// `k` is the number of steps from the head, in steps of `(dx, dy)`, to the
/// first cell that lies off the grid or on the snake.
pub open spec fn is_ray_length(s: GameState, dx: int, dy: int, k: int) -> bool {
    &&& k >= 1
    &&& collides(s, s.head().x + k * dx, s.head().y + k * dy)
    &&& forall|j: int| 1 <= j < k ==> !#[trigger] collides(s, s.head().x + j * dx, s.head().y + j * dy)
}

/// The length of the ray from the head in steps of `(dx, dy)`.
pub open spec fn ray_length(s: GameState, dx: int, dy: int) -> int {
    choose|k: int| is_ray_length(s, dx, dy, k)
}

/// The number of cells that a walk from `p` reaches, `p` counted, or zero
/// where `p` is no free cell of the grid.
pub open spec fn fill_count(n: int, walls: Set<Point>, p: Point) -> nat {
    if open_cell(n, walls, p) {
        region(n, walls, p).len()
    } else {
        0
    }
}

/// The number of free cells by the count of the snake: the cells of the grid
/// less the snake's length.
pub open spec fn free_count(s: GameState) -> int {
    s.area() - s.snake.len()
}

/// The share of the free cells that the head reaches.
pub open spec fn flood_ratio(s: GameState) -> Ratio {
    if free_count(s) > 0 {
        ratio(s.space() - 1, free_count(s))
    } else {
        ratio(0, 1)
    }
}

/// The share of the free cells that a walk from the head's neighbour in
/// heading `dir` reaches.
pub open spec fn side_flood(s: GameState, dir: Direction) -> Ratio {
    ratio(
        fill_count(s.grid_size, s.body(), neighbour(s.head(), dir)) as int,
        if free_count(s) > 1 {
            free_count(s)
        } else {
            1
        },
    )
}

/// The cell `steps` steps from `p` in heading `dir`.
pub open spec fn ahead(p: Point, dir: Direction, steps: int) -> (int, int) {
    (p.x + steps * dir.delta_spec().0, p.y + steps * dir.delta_spec().1)
}

/// The cell next to `p` in heading `dir`.
pub open spec fn neighbour(p: Point, dir: Direction) -> Point {
    Point { x: (p.x + dir.delta_spec().0) as i32, y: (p.y + dir.delta_spec().1) as i32 }
}

/// Whether the cell `steps` steps ahead of the head in heading `dir` lies off
/// the grid or on the snake, as a feature.
pub open spec fn danger(s: GameState, dir: Direction, steps: int) -> Ratio {
    flag(collides(s, ahead(s.head(), dir, steps).0, ahead(s.head(), dir, steps).1))
}

/// The ray length in heading `dir` over the side of the grid.
pub open spec fn ray(s: GameState, dir: Direction) -> Ratio {
    ratio(ray_length(s, dir.delta_spec().0, dir.delta_spec().1), s.grid_size)
}

/// The features of the state `s`, in their order.
pub open spec fn features(s: GameState) -> Seq<Ratio> {
    let (straight, right, left) = relative_dirs_spec(s.direction);
    let head = s.head();
    let tail = s.tail();
    let n = s.grid_size;
    seq![
        danger(s, straight, 1),
        danger(s, right, 1),
        danger(s, left, 1),
        danger(s, straight, 2),
        danger(s, right, 2),
        danger(s, left, 2),
        ray(s, straight),
        ray(s, right),
        ray(s, left),
        flag(s.direction == Direction::Up),
        flag(s.direction == Direction::Right),
        flag(s.direction == Direction::Down),
        flag(s.direction == Direction::Left),
        flag(s.food.y < head.y),
        flag(s.food.x > head.x),
        flag(s.food.y > head.y),
        flag(s.food.x < head.x),
        ratio(head.y as int, n),
        ratio(n - 1 - head.x, n),
        ratio(n - 1 - head.y, n),
        ratio(head.x as int, n),
        ratio(s.snake.len() as int, s.area()),
        flood_ratio(s),
        side_flood(s, straight),
        side_flood(s, right),
        side_flood(s, left),
        ratio(sign(tail.x - head.x), 1),
        ratio(sign(tail.y - head.y), 1),
    ]
}

/// A ray has one length only.
pub proof fn lemma_ray_length_unique(s: GameState, dx: int, dy: int, k: int)
    requires
        is_ray_length(s, dx, dy, k),
    ensures
        ray_length(s, dx, dy) == k,
{
    let other = ray_length(s, dx, dy);
    assert(is_ray_length(s, dx, dy, other));
    if other < k {
        assert(!collides(s, s.head().x + other * dx, s.head().y + other * dy));
    }
    if k < other {
        assert(!collides(s, s.head().x + k * dx, s.head().y + k * dy));
    }
}

/// The free cells of a playable state number as many as the grid has cells
/// less the snake's length.
pub proof fn lemma_free_count(s: GameState)
    requires
        s.wf(),
    ensures
        open_cells(s.grid_size, s.body()).finite(),
        open_cells(s.grid_size, s.body()).len() == free_count(s),
        free_count(s) >= 0,
{
    let n = s.grid_size;
    lemma_distinct_cells_bound(n, s.snake);
    lemma_all_cells_len(n);
    assert(s.body().subset_of(all_cells(n))) by {
        assert forall|p: Point| s.body().contains(p) implies all_cells(n).contains(p) by {
            let i = choose|i: int| 0 <= i < s.snake.len() && s.snake[i] == p;
            assert(in_grid(n, s.snake[i]));
        }
    }
    lemma_set_difference_len(all_cells(n), s.body());
    assert(all_cells(n).intersect(s.body()) =~= s.body());
    assert(all_cells(n).difference(s.body()) =~= open_cells(n, s.body()));
}

/// The share of the free cells that the head reaches lies between zero and
/// one, and is zero exactly if no cell next to the head is free.
pub proof fn lemma_flood_ratio(s: GameState)
    requires
        s.wf(),
    ensures
        flood_ratio(s).den > 0,
        0 <= flood_ratio(s).num <= flood_ratio(s).den,
        flood_ratio(s).num == 0 <==> forall|p: Point|
            adjacent(s.head(), p) ==> !open_cell(s.grid_size, s.body(), p),
{
    let n = s.grid_size;
    let head = s.head();
    let reach = region(n, s.body(), head);
    let free = open_cells(n, s.body());
    lemma_free_count(s);
    lemma_reachable_self(n, s.body(), head);
    assert(in_grid(n, s.snake[0]));
    assert(s.body().contains(s.snake[0]));
    assert(n * n <= 214739716) by (nonlinear_arith)
        requires
            1 <= n <= 14654,
    ;
    assert(reach.remove(head).subset_of(free)) by {
        assert forall|p: Point| reach.remove(head).contains(p) implies free.contains(p) by {
            lemma_reached_is_open(n, s.body(), head, p);
        }
    }
    lemma_len_subset(reach.remove(head), free);
    assert(reach =~= reach.remove(head).insert(head));
    assert(reach.finite());
    assert(reach.len() == reach.remove(head).len() + 1);
    if forall|p: Point| adjacent(head, p) ==> !open_cell(n, s.body(), p) {
        let alone = Set::<Point>::empty().insert(head);
        lemma_closed_set_holds_region(n, s.body(), head, alone);
        assert(reach.remove(head) =~= Set::<Point>::empty());
    } else {
        let p = choose|p: Point| adjacent(head, p) && open_cell(n, s.body(), p);
        lemma_reachable_step(n, s.body(), head, head, p);
        assert(reach.remove(head).contains(p));
        assert(free.contains(p));
        if reach.remove(head).len() == 0 {
            assert(reach.remove(head) =~= Set::<Point>::empty());
        }
        if free.len() == 0 {
            assert(free =~= Set::<Point>::empty());
        }
    }
}

/// The headings straight on, to the right and to the left of `dir`.
pub fn relative_dirs(dir: Direction) -> (r: (Direction, Direction, Direction))
    ensures
        r == relative_dirs_spec(dir),
{
    match dir {
        Direction::Up => (Direction::Up, Direction::Right, Direction::Left),
        Direction::Right => (Direction::Right, Direction::Down, Direction::Up),
        Direction::Down => (Direction::Down, Direction::Left, Direction::Right),
        Direction::Left => (Direction::Left, Direction::Up, Direction::Down),
    }
}

/// Whether the cell `(x, y)` lies off the grid or on the snake.
pub fn is_collision(x: i32, y: i32, engine: &SnakeEngine) -> (r: bool)
    ensures
        r == collides(engine@, x as int, y as int),
{
    if x < 0 || x >= engine.grid_size || y < 0 || y >= engine.grid_size {
        return true;
    }
    engine.occupies(Point { x, y })
}

/// Whether the cell `(x, y)` lies off the grid or in `occupied`.
fn is_blocked(occupied: &CellSet, x: i32, y: i32) -> (r: bool)
    requires
        occupied.wf(),
    ensures
        r == !open_cell(occupied.side(), occupied@, (Point { x, y })),
{
    let n: i32 = occupied.grid_side();
    x < 0 || x >= n || y < 0 || y >= n || occupied.contains(Point { x, y })
}

/// The distance from the head, in steps of `(dx, dy)`, to the first cell that
/// lies off the grid or on the snake, over the side of the grid. `occupied`
/// is the set of the snake's cells.
pub fn ray_distance(engine: &SnakeEngine, occupied: &CellSet, dx: i32, dy: i32) -> (r: Ratio)
    requires
        engine@.wf(),
        occupied.wf(),
        occupied.side() == engine.grid_size,
        occupied@ == engine@.body(),
        -1 <= dx <= 1,
        -1 <= dy <= 1,
    ensures
        r == ratio(ray_length(engine@, dx as int, dy as int), engine.grid_size as int),
        1 <= r.num <= engine.grid_size,
        r.den == engine.grid_size,
{
    let head = engine.snake[0];
    let n: i32 = engine.grid_size;
    assert(in_grid(n as int, engine.snake@[0]));
    assert(engine@.body().contains(engine.snake@[0]));
    let mut x: i32 = head.x + dx;
    let mut y: i32 = head.y + dy;
    let mut dist: i32 = 1;
    while !is_blocked(occupied, x, y)
        invariant
            engine@.wf(),
            occupied.wf(),
            occupied.side() == n,
            occupied@ == engine@.body(),
            head == engine@.head(),
            n == engine.grid_size,
            -1 <= dx <= 1,
            -1 <= dy <= 1,
            1 <= dist <= n,
            x == head.x + dist * dx,
            y == head.y + dist * dy,
            forall|j: int|
                1 <= j < dist ==> !#[trigger] collides(engine@, head.x + j * dx, head.y + j * dy),
        decreases n - dist,
    {
        assert(!collides(engine@, head.x + dist * dx, head.y + dist * dy));
        assert(dx != 0 || dy != 0);
        assert((dist + 1) * dx == dist * dx + dx && (dist + 1) * dy == dist * dy + dy)
            by (nonlinear_arith);
        assert(dist < n) by (nonlinear_arith)
            requires
                0 <= head.x < n,
                0 <= head.y < n,
                0 <= head.x + dist * dx < n,
                0 <= head.y + dist * dy < n,
                -1 <= dx <= 1,
                -1 <= dy <= 1,
                dx != 0 || dy != 0,
                dist >= 1,
        ;
        x += dx;
        y += dy;
        dist += 1;
    }
    proof {
        assert(collides(engine@, head.x + dist * dx, head.y + dist * dy));
        assert(is_ray_length(engine@, dx as int, dy as int, dist as int));
        lemma_ray_length_unique(engine@, dx as int, dy as int, dist as int);
    }
    Ratio { num: dist, den: n }
}

/// The number of cells that a walk from `(start_x, start_y)` reaches over
/// cells outside `occupied`, the start counted; zero where the start lies off
/// the grid or in `occupied`.
pub fn flood_fill_from(start_x: i32, start_y: i32, gs: i32, occupied: &CellSet) -> (r: u32)
    requires
        occupied.wf(),
        gs == occupied.side(),
    ensures
        r == fill_count(gs as int, occupied@, (Point { x: start_x, y: start_y })),
        r <= gs * gs,
{
    assert(0 <= gs * gs) by (nonlinear_arith);
    let start = Point { x: start_x, y: start_y };
    if start_x < 0 || start_x >= gs || start_y < 0 || start_y >= gs || occupied.contains(start) {
        return 0;
    }
    let found = flood(occupied, start);
    found.1
}

/// One or zero, as a fraction.
fn flag_of(b: bool) -> (r: Ratio)
    ensures
        r == flag(b),
{
    Ratio { num: if b { 1 } else { 0 }, den: 1 }
}

/// The sign of `a - b`, as a fraction.
fn sign_of(a: i32, b: i32) -> (r: Ratio)
    ensures
        r == ratio(sign(a - b), 1),
{
    Ratio { num: if a > b { 1 } else if a < b { -1 } else { 0 }, den: 1 }
}

/// Whether the cell `steps` steps ahead of the head in heading `dir` lies off
/// the grid or on the snake.
fn danger_ahead(engine: &SnakeEngine, dir: Direction, steps: i32) -> (r: Ratio)
    requires
        engine@.wf(),
        1 <= steps <= 2,
    ensures
        r == danger(engine@, dir, steps as int),
{
    let head = engine.snake[0];
    assert(in_grid(engine.grid_size as int, engine.snake@[0]));
    let (dx, dy) = dir.delta();
    assert(-2 <= dx * steps <= 2 && -2 <= dy * steps <= 2 && dx * steps == steps * dx && dy * steps
        == steps * dy) by (nonlinear_arith)
        requires
            -1 <= dx <= 1,
            -1 <= dy <= 1,
            1 <= steps <= 2,
    ;
    flag_of(is_collision(head.x + dx * steps, head.y + dy * steps, engine))
}

/// The ray length in heading `dir` over the side of the grid.
fn ray_towards(engine: &SnakeEngine, occupied: &CellSet, dir: Direction) -> (r: Ratio)
    requires
        engine@.wf(),
        occupied.wf(),
        occupied.side() == engine.grid_size,
        occupied@ == engine@.body(),
    ensures
        r == ray(engine@, dir),
        r.den > 0,
{
    let (dx, dy) = dir.delta();
    ray_distance(engine, occupied, dx, dy)
}

/// The distances from the head to the walls above, to the right, below and to
/// the left, each over the side of the grid.
fn wall_distances(engine: &SnakeEngine) -> (r: (Ratio, Ratio, Ratio, Ratio))
    requires
        engine@.wf(),
    ensures
        r.0 == ratio(engine@.head().y as int, engine@.grid_size),
        r.1 == ratio(engine@.grid_size - 1 - engine@.head().x, engine@.grid_size),
        r.2 == ratio(engine@.grid_size - 1 - engine@.head().y, engine@.grid_size),
        r.3 == ratio(engine@.head().x as int, engine@.grid_size),
        r.0.den > 0 && r.1.den > 0 && r.2.den > 0 && r.3.den > 0,
{
    let head = engine.snake[0];
    let gs: i32 = engine.grid_size;
    assert(in_grid(gs as int, engine.snake@[0]));
    (
        Ratio { num: head.y, den: gs },
        Ratio { num: gs - 1 - head.x, den: gs },
        Ratio { num: gs - 1 - head.y, den: gs },
        Ratio { num: head.x, den: gs },
    )
}

/// The snake's length over the number of cells, the share of the free cells
/// that the head reaches, and the shares that its neighbours in the three
/// headings reach. `occupied` is the set of the snake's cells.
fn flood_shares(
    engine: &SnakeEngine,
    occupied: &CellSet,
    straight: Direction,
    right: Direction,
    left: Direction,
) -> (r: (Ratio, Ratio, Ratio, Ratio, Ratio))
    requires
        engine@.wf(),
        occupied.wf(),
        occupied.side() == engine.grid_size,
        occupied@ == engine@.body(),
    ensures
        r.0 == ratio(engine@.snake.len() as int, engine@.area()),
        r.1 == flood_ratio(engine@),
        r.2 == side_flood(engine@, straight),
        r.3 == side_flood(engine@, right),
        r.4 == side_flood(engine@, left),
        r.0.den > 0 && r.1.den > 0 && r.2.den > 0 && r.3.den > 0 && r.4.den > 0,
{
    let head = engine.snake[0];
    let gs: i32 = engine.grid_size;
    proof {
        assert(in_grid(gs as int, engine.snake@[0]));
        assert(1 <= gs * gs <= 214739716) by (nonlinear_arith)
            requires
                1 <= gs <= 14654,
        ;
        lemma_free_count(engine@);
        lemma_flood_ratio(engine@);
    }
    let area: i32 = gs * gs;
    let len: i32 = engine.snake.len() as i32;
    let total_free: i32 = area - len;
    let reached: i32 = flood(occupied, head).1 as i32 - 1;
    let flood_all = if total_free > 0 {
        Ratio { num: reached, den: total_free }
    } else {
        Ratio { num: 0, den: 1 }
    };
    let flood_max: i32 = if total_free > 1 {
        total_free
    } else {
        1
    };
    let (sdx, sdy) = straight.delta();
    let (rdx, rdy) = right.delta();
    let (ldx, ldy) = left.delta();
    let flood_straight: i32 = flood_fill_from(head.x + sdx, head.y + sdy, gs, occupied) as i32;
    let flood_right: i32 = flood_fill_from(head.x + rdx, head.y + rdy, gs, occupied) as i32;
    let flood_left: i32 = flood_fill_from(head.x + ldx, head.y + ldy, gs, occupied) as i32;
    (
        Ratio { num: len, den: area },
        flood_all,
        Ratio { num: flood_straight, den: flood_max },
        Ratio { num: flood_right, den: flood_max },
        Ratio { num: flood_left, den: flood_max },
    )
}

/// The features of the state of `engine`: the dangers one and two cells
/// ahead, to the right and to the left; the ray lengths in those headings;
/// the heading; where the food lies; the distances to the walls; the snake's
/// length; the share of the free cells that the head reaches, and that its
/// three neighbours reach; and where the tail lies. The set of the snake's
/// cells is built once and serves every ray and every fill.
pub fn extract_features(engine: &SnakeEngine) -> (r: Vec<Ratio>)
    requires
        engine@.wf(),
    ensures
        r@ == features(engine@),
        r@.len() == FEATURE_COUNT,
        forall|i: int| 0 <= i < r@.len() ==> (#[trigger] r@[i]).den > 0,
        r@[FLOOD_SHARE_AT as int] == flood_ratio(engine@),
        0 <= r@[FLOOD_SHARE_AT as int].num <= r@[FLOOD_SHARE_AT as int].den,
        r@[FLOOD_SHARE_AT as int].num == 0 <==> forall|p: Point|
            adjacent(engine@.head(), p) ==> !open_cell(engine@.grid_size, engine@.body(), p),
{
    let head = engine.snake[0];
    let tail = engine.snake[engine.snake.len() - 1];
    let dir = engine.direction;
    let (straight, right, left) = relative_dirs(dir);
    let occupied = CellSet::from_cells(engine.grid_size, &engine.snake);

    let danger_straight = danger_ahead(engine, straight, 1);
    let danger_right = danger_ahead(engine, right, 1);
    let danger_left = danger_ahead(engine, left, 1);

    let danger_straight2 = danger_ahead(engine, straight, 2);
    let danger_right2 = danger_ahead(engine, right, 2);
    let danger_left2 = danger_ahead(engine, left, 2);

    let ray_straight = ray_towards(engine, &occupied, straight);
    let ray_right = ray_towards(engine, &occupied, right);
    let ray_left = ray_towards(engine, &occupied, left);

    let dir_up = flag_of(dir == Direction::Up);
    let dir_right = flag_of(dir == Direction::Right);
    let dir_down = flag_of(dir == Direction::Down);
    let dir_left = flag_of(dir == Direction::Left);

    let food_up = flag_of(engine.food.y < head.y);
    let food_right = flag_of(engine.food.x > head.x);
    let food_down = flag_of(engine.food.y > head.y);
    let food_left = flag_of(engine.food.x < head.x);

    let walls = wall_distances(engine);
    let floods = flood_shares(engine, &occupied, straight, right, left);

    let tail_dx = sign_of(tail.x, head.x);
    let tail_dy = sign_of(tail.y, head.y);

    let r = vec![
        danger_straight,
        danger_right,
        danger_left,
        danger_straight2,
        danger_right2,
        danger_left2,
        ray_straight,
        ray_right,
        ray_left,
        dir_up,
        dir_right,
        dir_down,
        dir_left,
        food_up,
        food_right,
        food_down,
        food_left,
        walls.0,
        walls.1,
        walls.2,
        walls.3,
        floods.0,
        floods.1,
        floods.2,
        floods.3,
        floods.4,
        tail_dx,
        tail_dy,
    ];
    proof {
        assert(r@ =~= features(engine@));
        lemma_flood_ratio(engine@);
    }
    r
}

} // verus!
