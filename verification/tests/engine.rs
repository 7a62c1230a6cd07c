use greedy_snake::astar::{reconstruct_path, search, Node};
use greedy_snake::board::{Board, Severity, Snake};
use greedy_snake::grid::{Direction, Position};
use greedy_snake::random::RandomGenerator;
use std::collections::{HashSet, VecDeque};

fn snake_of(flat: [i32; 8]) -> Snake {
    let mut snake = Snake::new();
    for i in 0..4 {
        snake.append_body(Position::new(flat[2 * i], flat[2 * i + 1]));
    }
    snake
}

fn positions_of(flat: &[i32]) -> Vec<Position> {
    let mut out = Vec::new();
    for i in 0..flat.len() / 2 {
        out.push(Position::new(flat[2 * i], flat[2 * i + 1]));
    }
    out
}

/// The length of a shortest way, found breadth first.
fn shortest(board: &Board, severity: Severity, start: Position, goal: Position) -> Option<usize> {
    let mut seen: HashSet<Position> = HashSet::new();
    let mut queue: VecDeque<(Position, usize)> = VecDeque::new();
    seen.insert(start);
    queue.push_back((start, 0));
    while let Some((p, n)) = queue.pop_front() {
        if p == goal {
            return Some(n);
        }
        for d in Direction::iter() {
            let q = p.neighbor(d).unwrap();
            if !seen.contains(&q) && !board.blocked(severity, &q) {
                seen.insert(q);
                queue.push_back((q, n + 1));
            }
        }
    }
    None
}

/// Walks `path` from `start` and says whether every cell entered passes the
/// check and the walk ends at `goal`.
fn leads(
    board: &Board,
    severity: Severity,
    start: Position,
    goal: Position,
    path: &Vec<Direction>,
) -> bool {
    let mut p = start;
    for d in path {
        p = p.neighbor(*d).unwrap();
        if board.blocked(severity, &p) {
            return false;
        }
    }
    p == goal
}

#[test]
fn search_on_an_open_board() {
    let board = Board::new(snake_of([3, 3, 3, 2, 3, 1, 2, 1]), vec![], vec![], 5);
    let start = Position::new(3, 3);
    let r = Direction::Right;
    let l = Direction::Left;
    let u = Direction::Up;
    assert_eq!(
        search(&board, Severity::Strict, &start, &Position::new(5, 5)),
        Some(vec![r, r, u, u])
    );
    assert_eq!(
        search(&board, Severity::Strict, &start, &Position::new(1, 5)),
        Some(vec![l, l, u, u])
    );
}

#[test]
fn search_from_the_goal_is_the_empty_way() {
    let board = Board::new(snake_of([3, 3, 3, 2, 3, 1, 2, 1]), vec![], vec![], 5);
    let start = Position::new(3, 3);
    assert_eq!(search(&board, Severity::Strict, &start, &start), Some(vec![]));
}

#[test]
fn search_finds_no_way_onto_an_occupied_cell() {
    let board = Board::new(snake_of([3, 3, 3, 2, 3, 1, 2, 1]), vec![], vec![], 5);
    let start = Position::new(3, 3);
    assert_eq!(search(&board, Severity::Strict, &start, &Position::new(3, 1)), None);
    // The tail's cell can be entered.
    assert_eq!(
        search(&board, Severity::Strict, &Position::new(1, 1), &Position::new(2, 1)),
        Some(vec![Direction::Right])
    );
}

#[test]
fn search_finds_no_way_off_the_board() {
    let board = Board::new(snake_of([3, 3, 3, 2, 3, 1, 2, 1]), vec![], vec![], 5);
    let start = Position::new(3, 3);
    assert_eq!(search(&board, Severity::Strict, &start, &Position::new(6, 3)), None);
    assert_eq!(search(&board, Severity::Strict, &start, &Position::new(3, 0)), None);
    assert_eq!(
        search(&board, Severity::Strict, &start, &Position::new(i32::MAX, i32::MIN)),
        None
    );
}

#[test]
fn search_from_outside_the_board_may_enter_it() {
    let board = Board::new(snake_of([3, 3, 3, 2, 3, 1, 2, 1]), vec![], vec![], 5);
    assert_eq!(
        search(&board, Severity::Strict, &Position::new(0, 5), &Position::new(2, 5)),
        Some(vec![Direction::Right, Direction::Right])
    );
    assert_eq!(
        search(&board, Severity::Strict, &Position::new(-1, 5), &Position::new(2, 5)),
        None
    );
}

#[test]
fn search_on_a_board_without_cells() {
    let board = Board::new(snake_of([1, 1, 1, 2, 1, 3, 1, 4]), vec![], vec![], 0);
    assert_eq!(
        search(&board, Severity::Strict, &Position::new(1, 1), &Position::new(1, 2)),
        None
    );
    let board = Board::new(snake_of([1, 1, 1, 2, 1, 3, 1, 4]), vec![], vec![], -4);
    assert_eq!(
        search(&board, Severity::Loose, &Position::new(1, 1), &Position::new(1, 1)),
        Some(vec![])
    );
}

#[test]
fn search_goes_round_a_wall() {
    let board = Board::with_barriers(
        snake_of([1, 1, 1, 1, 1, 1, 1, 1]),
        vec![],
        positions_of(&[2, 1, 2, 2, 2, 3]),
        vec![],
        5,
    );
    let u = Direction::Up;
    let r = Direction::Right;
    let d = Direction::Down;
    assert_eq!(
        search(&board, Severity::Strict, &Position::new(1, 1), &Position::new(3, 1)),
        Some(vec![u, u, u, r, r, d, d, d])
    );
}

#[test]
fn search_under_the_two_severities() {
    let board = Board::new(
        snake_of([1, 1, 2, 1, 3, 1, 4, 1]),
        vec![snake_of([3, 3, 3, 4, 3, 5, 4, 5])],
        positions_of(&[5, 3]),
        5,
    );
    let start = Position::new(1, 1);
    let goal = Position::new(5, 3);
    let u = Direction::Up;
    let r = Direction::Right;
    assert_eq!(search(&board, Severity::Strict, &start, &goal), Some(vec![u, r, r, r, r, u]));
    assert_eq!(search(&board, Severity::Loose, &start, &goal), None);
}

#[test]
fn search_reports_enclosed_food_as_unreachable() {
    let board = Board::new(
        snake_of([5, 5, 5, 6, 5, 7, 5, 8]),
        vec![snake_of([1, 2, 1, 3, 1, 4, 1, 5]), snake_of([2, 1, 3, 1, 4, 1, 5, 1])],
        positions_of(&[1, 1]),
        8,
    );
    assert_eq!(
        search(&board, Severity::Strict, &Position::new(5, 5), &Position::new(1, 1)),
        None
    );
    assert_eq!(shortest(&board, Severity::Strict, Position::new(5, 5), Position::new(1, 1)), None);
}

#[test]
fn search_is_as_short_as_breadth_first_search() {
    let mut rng = RandomGenerator::new(2024);
    for round in 0..40 {
        let size: i32 = 4 + (round % 4);
        let mut barriers: Vec<Position> = Vec::new();
        let count: i32 = rng.generate_int(0, size * size / 3);
        for _ in 0..count {
            barriers.push(Position::new(rng.generate_int(1, size), rng.generate_int(1, size)));
        }
        let hx: i32 = rng.generate_int(1, size);
        let hy: i32 = rng.generate_int(1, size);
        let rx: i32 = rng.generate_int(1, size);
        let ry: i32 = rng.generate_int(1, size);
        let board = Board::with_barriers(
            snake_of([hx, hy, hx, hy - 1, hx, hy - 2, hx, hy - 3]),
            vec![snake_of([rx, ry, rx + 1, ry, rx + 2, ry, rx + 3, ry])],
            barriers,
            vec![],
            size,
        );
        let start = Position::new(hx, hy);
        for severity in [Severity::Strict, Severity::Loose] {
            for gx in 0..size + 2 {
                for gy in 0..size + 2 {
                    let goal = Position::new(gx, gy);
                    let found = search(&board, severity, &start, &goal);
                    let least = shortest(&board, severity, start, goal);
                    match found {
                        Some(path) => {
                            assert_eq!(Some(path.len()), least);
                            assert!(leads(&board, severity, start, goal, &path));
                        },
                        None => assert_eq!(least, None),
                    }
                }
            }
        }
    }
}

#[test]
fn search_gives_the_same_way_each_time() {
    let board = Board::new(
        snake_of([1, 1, 2, 1, 3, 1, 4, 1]),
        vec![snake_of([3, 3, 3, 4, 3, 5, 4, 5])],
        vec![],
        6,
    );
    let start = Position::new(1, 1);
    let goal = Position::new(6, 6);
    let first = search(&board, Severity::Strict, &start, &goal);
    assert!(first.is_some());
    for _ in 0..5 {
        assert_eq!(search(&board, Severity::Strict, &start, &goal), first);
    }
}

#[test]
fn node_keeps_what_it_was_given() {
    let n = Node::new(Position::new(2, 3), 4, 5, Some(7));
    assert_eq!(*n.get_pos(), Position::new(2, 3));
    assert_eq!(n.get_g(), 4);
    assert_eq!(n.get_h(), 5);
    assert_eq!(n.get_f(), 9);
    assert_eq!(n.get_parent(), Some(7));
    let root = Node::new(Position::new(0, 0), 0, 12, None);
    assert_eq!(root.get_f(), 12);
    assert_eq!(root.get_parent(), None);
}

#[test]
fn node_heuristic_is_the_manhattan_distance() {
    assert_eq!(Node::heuristic(&Position::new(1, 1), &Position::new(4, 5)), 7);
    assert_eq!(Node::heuristic(&Position::new(4, 5), &Position::new(4, 5)), 0);
    assert_eq!(Node::heuristic(&Position::new(-2, 5), &Position::new(3, -1)), 11);
}

#[test]
fn path_is_rebuilt_from_parent_links() {
    let nodes = vec![
        Node::new(Position::new(1, 1), 0, 3, None),
        Node::new(Position::new(1, 2), 1, 2, Some(0)),
        Node::new(Position::new(2, 1), 1, 2, Some(0)),
        Node::new(Position::new(2, 2), 2, 1, Some(1)),
        Node::new(Position::new(2, 3), 3, 0, Some(3)),
        Node::new(Position::new(1, 3), 4, 1, Some(4)),
        Node::new(Position::new(1, 2), 5, 2, Some(5)),
    ];
    assert_eq!(reconstruct_path(&nodes, 0), vec![]);
    assert_eq!(reconstruct_path(&nodes, 2), vec![Direction::Right]);
    assert_eq!(
        reconstruct_path(&nodes, 6),
        vec![
            Direction::Up,
            Direction::Right,
            Direction::Up,
            Direction::Left,
            Direction::Down
        ]
    );
}

#[test]
fn path_skips_links_between_cells_that_do_not_touch() {
    let nodes = vec![
        Node::new(Position::new(1, 1), 0, 0, None),
        Node::new(Position::new(3, 3), 1, 0, Some(0)),
        Node::new(Position::new(3, 4), 2, 0, Some(1)),
    ];
    assert_eq!(reconstruct_path(&nodes, 2), vec![Direction::Up]);
}

#[test]
fn path_ends_at_a_link_that_does_not_point_back() {
    let nodes = vec![
        Node::new(Position::new(1, 1), 0, 0, Some(1)),
        Node::new(Position::new(1, 2), 1, 0, Some(0)),
        Node::new(Position::new(2, 2), 2, 0, Some(2)),
    ];
    assert_eq!(reconstruct_path(&nodes, 1), vec![Direction::Up]);
    assert_eq!(reconstruct_path(&nodes, 2), vec![]);
}
