use greedy_snake::greedy_snake_move;

/// Plays one round: the snake moves until it eats the apple (0), dies (-1),
/// or no way to the apple is found (1).
fn game(snake: &mut Vec<i32>, apple: &Vec<i32>) -> i32 {
    loop {
        let dir: i32 = greedy_snake_move(snake.clone(), apple.clone());
        if dir == -1 {
            return 1;
        }

        let mut new_snake = [0; 8];

        new_snake[0] = snake[0] + if dir == 3 { 1 } else { 0 } - if dir == 1 { 1 } else { 0 };
        new_snake[1] = snake[1] + if dir == 0 { 1 } else { 0 } - if dir == 2 { 1 } else { 0 };

        for i in (2..8).step_by(2) {
            new_snake[i] = snake[i - 2];
            new_snake[i + 1] = snake[i - 1];
        }

        if new_snake[0] < 1 || new_snake[0] > 8 || new_snake[1] < 1 || new_snake[1] > 8 {
            println!("\nhit the wall");
            return -1;
        }

        if new_snake[0] == new_snake[4] && new_snake[1] == new_snake[5] {
            println!("\nhit itself");
            return -1;
        }

        snake.clone_from_slice(&new_snake);

        if snake[0] == apple[0] && snake[1] == apple[1] {
            println!("\nate the apple\n");
            return 0;
        }
    }
}

#[test]
fn test_common1() {
    let mut snake = vec![1, 1, 1, 2, 1, 3, 1, 4];
    let apple = vec![2, 1];
    let res: i32 = game(&mut snake, &apple);
    assert_eq!(res, 0);
}

#[test]
fn test_common2() {
    let mut snake = vec![1, 1, 1, 2, 1, 3, 2, 3];
    let apple = vec![6, 5];
    let res: i32 = game(&mut snake, &apple);
    assert_eq!(res, 0);
}

#[test]
fn lone_agent_steps_right_to_adjacent_apple() {
    assert_eq!(greedy_snake_move(vec![1, 1, 1, 2, 1, 3, 1, 4], vec![2, 1]), 3);
}

#[test]
fn lone_agent_first_move_of_long_way() {
    // The way found is five moves right, then four up.
    assert_eq!(greedy_snake_move(vec![1, 1, 1, 2, 1, 3, 2, 3], vec![6, 5]), 3);
}

#[test]
fn lone_agent_reports_apple_off_the_board() {
    assert_eq!(greedy_snake_move(vec![4, 4, 4, 3, 4, 2, 4, 1], vec![9, 4]), -1);
    assert_eq!(greedy_snake_move(vec![4, 4, 4, 3, 4, 2, 4, 1], vec![4, 0]), -1);
}

#[test]
fn lone_agent_reports_apple_under_its_own_body() {
    assert_eq!(greedy_snake_move(vec![4, 4, 4, 3, 4, 2, 4, 1], vec![4, 3]), -1);
}

#[test]
fn lone_agent_may_enter_the_cell_of_its_tail() {
    // The tail at (3, 4) leaves as the head arrives.
    assert_eq!(greedy_snake_move(vec![4, 4, 4, 3, 3, 3, 3, 4], vec![3, 4]), 1);
}

#[test]
fn lone_agent_on_the_apple_has_no_move_to_make() {
    assert_eq!(greedy_snake_move(vec![4, 4, 4, 3, 4, 2, 4, 1], vec![4, 4]), -1);
}
