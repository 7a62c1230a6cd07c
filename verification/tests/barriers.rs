use greedy_snake::greedy_snake_move_barriers;
use greedy_snake::random::RandomGenerator;
use std::time::{SystemTime, UNIX_EPOCH};

fn is_position_overlap(x: i32, y: i32, positions: &[(i32, i32)]) -> bool {
    positions.iter().any(|&(px, py)| px == x && py == y)
}

fn generate_unique_position(existing_positions: &[(i32, i32)]) -> (i32, i32) {
    let timestamp: u64 = SystemTime::now().duration_since(UNIX_EPOCH).unwrap().as_nanos() as u64;
    let mut rng = RandomGenerator::new(timestamp);

    loop {
        let x: i32 = rng.generate_int(0, 10);
        let y: i32 = rng.generate_int(0, 10);
        if !is_position_overlap(x, y, existing_positions) {
            return (x, y);
        }
    }
}

/// Plays one round: the snake moves until it eats the apple (0), dies (-1),
/// or no way to the apple is found (1).
fn game(snake: &mut Vec<i32>, apple: &Vec<i32>, obstacles: &Vec<i32>) -> i32 {
    loop {
        let dir: i32 = greedy_snake_move_barriers(snake.clone(), apple.clone(), obstacles.clone());
        if dir == -1 {
            return 1;
        }

        let mut new_snake = [0; 8];

        new_snake[0] = snake[0] + if dir == 3 { 1 } else { 0 } - if dir == 1 { 1 } else { 0 };
        new_snake[1] = snake[1] + if dir == 0 { 1 } else { 0 } - if dir == 2 { 1 } else { 0 };

        for i in (2..8).step_by(2) {
            new_snake[i] = snake[i - 2];
            new_snake[i + 1] = snake[i - 1];
        }

        for i in (0..obstacles.len()).step_by(2) {
            if new_snake[0] == obstacles[i] && new_snake[1] == obstacles[i + 1] {
                println!("\n撞到了障碍物");
                return -1;
            }
        }

        for i in (2..8).step_by(2) {
            if new_snake[0] == new_snake[i] && new_snake[1] == new_snake[i + 1] {
                println!("\n撞到了自己");
                return -1;
            }
        }

        if new_snake[0] < 0 || new_snake[0] > 10 || new_snake[1] < 0 || new_snake[1] > 10 {
            println!("\n撞墙了.....");
            return -1;
        }

        snake.clone_from_slice(&new_snake);

        if snake[0] == apple[0] && snake[1] == apple[1] {
            println!("\n成功吃到了苹果\n");
            return 0;
        }
    }
}

#[test]
fn test_no_way_to_apple() {
    let mut snake = vec![5, 5, 5, 6, 5, 7, 5, 8];
    let apple = vec![1, 1];
    let obstacles =
        vec![1, 2, 1, 3, 1, 4, 1, 5, 1, 6, 1, 7, 1, 8, 2, 1, 4, 4, 4, 5, 4, 6, 4, 7];

    let result: i32 = game(&mut snake, &apple, &obstacles);
    assert_eq!(result, 1);
}

#[test]
fn random_test() {
    let mut positions = Vec::new();

    let mut snake = Vec::new();
    for _ in 0..4 {
        let (x, y) = generate_unique_position(&positions);
        positions.push((x, y));
        snake.push(x);
        snake.push(y);
    }

    let (apple_x, apple_y) = generate_unique_position(&positions);
    positions.push((apple_x, apple_y));
    let apple = vec![apple_x, apple_y];

    let mut obstacles = Vec::new();
    for _ in 0..12 {
        let (x, y) = generate_unique_position(&positions);
        positions.push((x, y));
        obstacles.push(x);
        obstacles.push(y);
    }

    println!("测试场景：");
    println!("蛇的位置: {:?}", snake);
    println!("苹果位置: {:?}", apple);
    println!("障碍物位置: {:?}", obstacles);

    let result: i32 = game(&mut snake, &apple, &obstacles);
    println!("游戏结果: {}", result);
    assert!(result == 0 || result == 1);
}

#[test]
fn barriers_force_the_long_way_round() {
    // A wall on column 2 from row 1 to row 3: up three, right two, down three.
    let dir: i32 = greedy_snake_move_barriers(
        vec![1, 1, 1, 1, 1, 1, 1, 1],
        vec![3, 1],
        vec![2, 1, 2, 2, 2, 3],
    );
    assert_eq!(dir, 0);
}

#[test]
fn barriers_none_is_the_empty_board() {
    let dir: i32 = greedy_snake_move_barriers(vec![1, 1, 1, 2, 1, 3, 1, 4], vec![2, 1], vec![]);
    assert_eq!(dir, 3);
}

#[test]
fn barriers_on_the_apple_hide_it() {
    let dir: i32 =
        greedy_snake_move_barriers(vec![1, 1, 1, 2, 1, 3, 1, 4], vec![2, 1], vec![2, 1]);
    assert_eq!(dir, -1);
}

#[test]
fn barriers_enclosing_the_snake_leave_no_way() {
    let dir: i32 = greedy_snake_move_barriers(
        vec![1, 1, 1, 2, 1, 3, 1, 4],
        vec![8, 8],
        vec![2, 1, 2, 2, 2, 3, 2, 4, 1, 5],
    );
    assert_eq!(dir, -1);
}
