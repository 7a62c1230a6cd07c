use greedy_snake::astar::heading_between;
use greedy_snake::grid::{Direction, Position};

#[test]
fn unit_steps() {
    let p = Position::new(3, -2);
    assert_eq!(Position::up(&p), Position::new(3, -1));
    assert_eq!(Position::down(&p), Position::new(3, -3));
    assert_eq!(Position::left(&p), Position::new(2, -2));
    assert_eq!(Position::right(&p), Position::new(4, -2));
    assert_eq!(p.get_x(), 3);
    assert_eq!(p.get_y(), -2);
}

#[test]
fn neighbours_follow_the_unit_steps() {
    let p = Position::new(0, 0);
    assert_eq!(p.neighbor(Direction::Up), Some(Position::new(0, 1)));
    assert_eq!(p.neighbor(Direction::Down), Some(Position::new(0, -1)));
    assert_eq!(p.neighbor(Direction::Left), Some(Position::new(-1, 0)));
    assert_eq!(p.neighbor(Direction::Right), Some(Position::new(1, 0)));
}

#[test]
fn neighbours_end_with_the_machine_range() {
    let top = Position::new(i32::MAX, i32::MAX);
    assert_eq!(top.neighbor(Direction::Up), None);
    assert_eq!(top.neighbor(Direction::Right), None);
    assert_eq!(top.neighbor(Direction::Down), Some(Position::new(i32::MAX, i32::MAX - 1)));
    let bottom = Position::new(i32::MIN, i32::MIN);
    assert_eq!(bottom.neighbor(Direction::Down), None);
    assert_eq!(bottom.neighbor(Direction::Left), None);
    assert_eq!(bottom.neighbor(Direction::Up), Some(Position::new(i32::MIN, i32::MIN + 1)));
}

#[test]
fn manhattan_distance() {
    assert_eq!(Position::new(1, 1).distance(&Position::new(4, 5)), 7);
    assert_eq!(Position::new(4, 5).distance(&Position::new(1, 1)), 7);
    assert_eq!(Position::new(-3, 2).distance(&Position::new(2, -1)), 8);
    assert_eq!(Position::new(6, 6).distance(&Position::new(6, 6)), 0);
    assert_eq!(
        Position::new(i32::MIN, i32::MIN).distance(&Position::new(i32::MAX, i32::MAX)),
        8589934590
    );
}

#[test]
fn one_step_changes_the_distance_by_one() {
    let goal = Position::new(2, 7);
    for x in -3..4 {
        for y in 4..10 {
            let p = Position::new(x, y);
            for d in Direction::iter() {
                let q = p.neighbor(d).unwrap();
                let change: i64 = q.distance(&goal) - p.distance(&goal);
                assert!(change == 1 || change == -1);
            }
        }
    }
}

#[test]
fn directions_come_in_trial_order() {
    assert_eq!(
        Direction::iter(),
        [Direction::Up, Direction::Down, Direction::Left, Direction::Right]
    );
}

#[test]
fn direction_codes() {
    assert_eq!(Direction::Up.code(), 0);
    assert_eq!(Direction::Left.code(), 1);
    assert_eq!(Direction::Down.code(), 2);
    assert_eq!(Direction::Right.code(), 3);
}

#[test]
fn heading_of_neighbours() {
    let p = Position::new(5, 5);
    for d in Direction::iter() {
        let q = p.neighbor(d).unwrap();
        assert_eq!(heading_between(&p, &q), Some(d));
    }
    assert_eq!(heading_between(&p, &p), None);
    assert_eq!(heading_between(&p, &Position::new(6, 6)), None);
    assert_eq!(heading_between(&p, &Position::new(5, 7)), None);
    let edge = Position::new(i32::MAX, 0);
    assert_eq!(heading_between(&edge, &Position::new(i32::MIN, 0)), None);
}
