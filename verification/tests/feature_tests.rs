use snake_dqn::cellset::CellSet;
use snake_dqn::engine::Direction;
use snake_dqn::engine::Point;
use snake_dqn::engine::SnakeEngine;
use snake_dqn::features::extract_features;
use snake_dqn::features::flood_fill_from;
use snake_dqn::features::is_collision;
use snake_dqn::features::ray_distance;
use snake_dqn::features::relative_dirs;
use snake_dqn::features::Ratio;
use snake_dqn::features::FEATURE_COUNT;
use snake_dqn::features::FLOOD_SHARE_AT;
use snake_dqn::flood::flood;

fn at(x: i32, y: i32) -> Point {
    Point { x, y }
}

fn r(num: i32, den: i32) -> Ratio {
    Ratio { num, den }
}

fn game(grid_size: i32, snake: Vec<Point>, direction: Direction, food: Point) -> SnakeEngine {
    SnakeEngine {
        grid_size,
        snake,
        direction,
        food,
        score: 0,
        game_over: false,
        steps_without_food: 0,
    }
}

fn as_number(f: Ratio) -> f64 {
    f.num as f64 / f.den as f64
}

#[test]
fn relative_dirs_turn_with_the_heading() {
    assert_eq!(
        relative_dirs(Direction::Up),
        (Direction::Up, Direction::Right, Direction::Left)
    );
    assert_eq!(
        relative_dirs(Direction::Right),
        (Direction::Right, Direction::Down, Direction::Up)
    );
    assert_eq!(
        relative_dirs(Direction::Down),
        (Direction::Down, Direction::Left, Direction::Right)
    );
    assert_eq!(
        relative_dirs(Direction::Left),
        (Direction::Left, Direction::Up, Direction::Down)
    );
}

#[test]
fn collision_is_a_wall_or_a_snake_cell() {
    let e = game(5, vec![at(2, 2), at(1, 2)], Direction::Right, at(4, 4));
    assert!(is_collision(-1, 0, &e));
    assert!(is_collision(0, -1, &e));
    assert!(is_collision(5, 0, &e));
    assert!(is_collision(0, 5, &e));
    assert!(is_collision(2, 2, &e));
    assert!(is_collision(1, 2, &e));
    assert!(!is_collision(0, 0, &e));
    assert!(!is_collision(4, 4, &e));
    assert!(!is_collision(3, 2, &e));
}

#[test]
fn ray_counts_the_steps_to_the_first_obstacle() {
    let e = game(20, vec![at(10, 10), at(9, 10), at(8, 10)], Direction::Right, at(15, 10));
    let occupied = CellSet::from_cells(20, &e.snake);
    assert_eq!(ray_distance(&e, &occupied, 1, 0), r(10, 20));
    assert_eq!(ray_distance(&e, &occupied, 0, 1), r(10, 20));
    assert_eq!(ray_distance(&e, &occupied, 0, -1), r(11, 20));
    assert_eq!(ray_distance(&e, &occupied, -1, 0), r(1, 20));
    assert_eq!(ray_distance(&e, &occupied, 0, 0), r(1, 20));
    assert_eq!(ray_distance(&e, &occupied, 1, 1), r(10, 20));
    // the body ahead stops the ray
    let e = game(
        6,
        vec![at(1, 1), at(1, 2), at(2, 2), at(3, 2), at(4, 2), at(4, 1)],
        Direction::Up,
        at(0, 0),
    );
    let occupied = CellSet::from_cells(6, &e.snake);
    assert_eq!(ray_distance(&e, &occupied, 1, 0), r(3, 6));
    assert_eq!(ray_distance(&e, &occupied, 0, -1), r(2, 6));
}

#[test]
fn flood_fill_from_counts_what_a_start_cell_reaches() {
    let wall = vec![at(1, 0), at(1, 1), at(1, 2), at(1, 3)];
    let occupied = CellSet::from_cells(4, &wall);
    assert_eq!(flood_fill_from(0, 0, 4, &occupied), 4);
    assert_eq!(flood_fill_from(2, 1, 4, &occupied), 8);
    assert_eq!(flood_fill_from(1, 1, 4, &occupied), 0);
    assert_eq!(flood_fill_from(-1, 0, 4, &occupied), 0);
    assert_eq!(flood_fill_from(0, 4, 4, &occupied), 0);
    let empty = CellSet::new(3);
    assert_eq!(flood_fill_from(1, 1, 3, &empty), 9);
}

#[test]
fn flood_returns_the_cells_it_counted() {
    let wall = vec![at(1, 0), at(1, 1), at(1, 2), at(1, 3)];
    let occupied = CellSet::from_cells(4, &wall);
    let (seen, count) = flood(&occupied, at(0, 2));
    assert_eq!(count, 4);
    for y in 0..4 {
        assert!(seen.contains(at(0, y)));
        assert!(!seen.contains(at(1, y)));
        assert!(!seen.contains(at(2, y)));
        assert!(!seen.contains(at(3, y)));
    }
    // a start on a wall cell is counted, with what it touches
    let (seen, count) = flood(&occupied, at(1, 1));
    assert_eq!(count, 13);
    assert!(seen.contains(at(1, 1)));
    assert!(!seen.contains(at(1, 0)));
    assert!(seen.contains(at(3, 3)));
}

#[test]
fn cell_set_holds_what_was_put_in() {
    let mut cells = CellSet::new(3);
    assert_eq!(cells.grid_side(), 3);
    assert!(!cells.contains(at(0, 0)));
    cells.insert(at(2, 1));
    cells.insert(at(0, 0));
    cells.insert(at(2, 1));
    assert!(cells.contains(at(2, 1)));
    assert!(cells.contains(at(0, 0)));
    assert!(!cells.contains(at(1, 2)));
    assert!(!cells.contains(at(3, 0)));
    assert!(!cells.contains(at(0, -1)));
}

#[test]
fn features_of_the_opening_board() {
    let e = game(20, vec![at(10, 10), at(9, 10), at(8, 10)], Direction::Right, at(15, 10));
    let f = extract_features(&e);
    let expected = vec![
        // danger one step: straight, right, left
        r(0, 1),
        r(0, 1),
        r(0, 1),
        // danger two steps
        r(0, 1),
        r(0, 1),
        r(0, 1),
        // rays: straight (right), right (down), left (up)
        r(10, 20),
        r(10, 20),
        r(11, 20),
        // heading: up, right, down, left
        r(0, 1),
        r(1, 1),
        r(0, 1),
        r(0, 1),
        // food: up, right, down, left
        r(0, 1),
        r(1, 1),
        r(0, 1),
        r(0, 1),
        // walls: up, right, down, left
        r(10, 20),
        r(9, 20),
        r(9, 20),
        r(10, 20),
        // length
        r(3, 400),
        // share of the free cells that the head reaches
        r(397, 397),
        // and its neighbours straight, right, left
        r(397, 397),
        r(397, 397),
        r(397, 397),
        // tail
        r(-1, 1),
        r(0, 1),
    ];
    assert_eq!(f.len(), FEATURE_COUNT);
    assert_eq!(f.len(), 28);
    assert_eq!(f, expected);
}

#[test]
fn features_in_a_corner_heading_up() {
    // head (0,1) heading up, body down the left wall and along the bottom
    let snake = vec![at(0, 1), at(0, 2), at(0, 3), at(1, 3)];
    let e = game(4, snake, Direction::Up, at(3, 0));
    let f = extract_features(&e);
    let expected = vec![
        // straight is up (0,0): free; right (1,1): free; left (-1,1): wall
        r(0, 1),
        r(0, 1),
        r(1, 1),
        // two steps: (0,-1) wall; (2,1) free; (-2,1) wall
        r(1, 1),
        r(0, 1),
        r(1, 1),
        // rays: up 2, right 4, left 1
        r(2, 4),
        r(4, 4),
        r(1, 4),
        r(1, 1),
        r(0, 1),
        r(0, 1),
        r(0, 1),
        // food (3,0): up and right
        r(1, 1),
        r(1, 1),
        r(0, 1),
        r(0, 1),
        // walls: up 1, right 3, down 2, left 0
        r(1, 4),
        r(3, 4),
        r(2, 4),
        r(0, 4),
        r(4, 16),
        r(12, 12),
        r(12, 12),
        r(12, 12),
        r(0, 12),
        // tail (1,3): to the right and below
        r(1, 1),
        r(1, 1),
    ];
    assert_eq!(f, expected);
}

#[test]
fn flood_ratio_is_zero_when_the_head_has_no_free_neighbour() {
    // head (0,0) in the corner, shut in by (1,0) and (0,1)
    let snake = vec![at(0, 0), at(0, 1), at(1, 1), at(1, 0)];
    let e = game(5, snake, Direction::Up, at(4, 4));
    let f = extract_features(&e);
    assert_eq!(f[22], r(0, 21));
    assert_eq!(f[23], r(0, 21));
    assert_eq!(f[24], r(0, 21));
    assert_eq!(f[25], r(0, 21));
}

#[test]
fn flood_ratio_on_a_full_grid() {
    let snake = vec![at(0, 0), at(1, 0), at(1, 1), at(0, 1)];
    let e = game(2, snake, Direction::Left, at(0, 0));
    let f = extract_features(&e);
    assert_eq!(f[21], r(4, 4));
    assert_eq!(f[22], r(0, 1));
    assert_eq!(f[23], r(0, 1));
    assert_eq!(f[24], r(0, 1));
    assert_eq!(f[25], r(0, 1));
}

#[test]
fn flood_ratio_counts_only_the_head_side_of_a_wall() {
    // A 4 x 4 grid. The snake runs up column 1 from its head (1,3) and ends
    // in the corner (0,0): to the left of it lies the pocket (0,1), (0,2),
    // (0,3), to the right the columns 2 and 3.
    let snake = vec![at(1, 3), at(1, 2), at(1, 1), at(1, 0), at(0, 0)];
    let e = game(4, snake, Direction::Down, at(3, 3));
    let f = extract_features(&e);
    // 11 free cells, all touched from the head: left pocket 3, right side 8
    assert_eq!(f[22], r(11, 11));
    // straight is down (1,4): wall; right of down is left (0,3): 3; left of
    // down is right (2,3): 8
    assert_eq!(f[23], r(0, 11));
    assert_eq!(f[24], r(3, 11));
    assert_eq!(f[25], r(8, 11));
}

#[test]
fn flood_ratio_lies_between_zero_and_one() {
    let boards = vec![
        game(20, vec![at(10, 10), at(9, 10), at(8, 10)], Direction::Right, at(15, 10)),
        game(4, vec![at(0, 1), at(0, 2), at(0, 3), at(1, 3)], Direction::Up, at(3, 0)),
        game(5, vec![at(0, 0), at(0, 1), at(1, 1), at(1, 0)], Direction::Up, at(4, 4)),
        game(2, vec![at(0, 0), at(1, 0), at(1, 1), at(0, 1)], Direction::Left, at(0, 0)),
        game(4, vec![at(1, 3), at(1, 2), at(1, 1), at(1, 0), at(0, 0)], Direction::Down, at(3, 3)),
        game(1, vec![at(0, 0)], Direction::Down, at(0, 0)),
    ];
    for e in boards.iter() {
        let f = extract_features(e);
        assert_eq!(f.len(), 28);
        for feature in f.iter() {
            assert!(feature.den > 0);
        }
        assert_eq!(FLOOD_SHARE_AT, 22);
        let share = as_number(f[FLOOD_SHARE_AT]);
        assert!(0.0 <= share && share <= 1.0);
        let head = e.snake[0];
        let mut free_neighbours = 0;
        for (dx, dy) in [(0, -1), (1, 0), (0, 1), (-1, 0)] {
            if !is_collision(head.x + dx, head.y + dy, e) {
                free_neighbours += 1;
            }
        }
        assert_eq!(f[22].num == 0, free_neighbours == 0);
    }
}
