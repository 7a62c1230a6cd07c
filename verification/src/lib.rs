//! Decision engine for a snake agent on a bounded square grid: given the
//! agent's body, the bodies of its rivals and the food on the board, it
//! computes the next move.

use crate::board::{bodies_of, Board, Snake, Snapshot};
use crate::grid::{Direction, Position};
use crate::policy::{decide, decision, find_astar_path, select};
use vstd::prelude::*;

pub mod admissible;
pub mod astar;
pub mod board;
pub mod grid;
pub mod model;
pub mod policy;
pub mod random;

verus! {

/// The side of the board on which the variants without rivals play.
pub const SMALL_BOARD: i32 = 8;

/// The answer of the variants without fallback where no way to the food was
/// found.
pub const NO_MOVE: i32 = -1;

/// The `k`-th position of a flat list of coordinates: `x` at `2k`, `y` behind
/// it.
pub open spec fn pair_at(flat: Seq<i32>, k: int) -> Position {
    Position { x: flat[2 * k], y: flat[2 * k + 1] }
}

/// The positions that a flat list of coordinates holds.
pub open spec fn positions_of(flat: Seq<i32>) -> Seq<Position> {
    Seq::new((flat.len() / 2) as nat, |k: int| pair_at(flat, k))
}

/// The `i`-th body of a flat list of coordinates: four positions, head first.
pub open spec fn body_of(flat: Seq<i32>, i: int) -> Seq<Position> {
    Seq::new(4, |j: int| pair_at(flat, 4 * i + j))
}

/// The first `n` bodies of a flat list of coordinates.
pub open spec fn bodies_in(flat: Seq<i32>, n: int) -> Seq<Seq<Position>> {
    Seq::new(n as nat, |i: int| body_of(flat, i))
}

/// The board that the flat lists of a host describe.
pub open spec fn snapshot_of(
    board_size: i32,
    my_snake: Seq<i32>,
    snake_num: i32,
    other_snakes: Seq<i32>,
    barriers: Seq<i32>,
    foods: Seq<i32>,
) -> Snapshot {
    Snapshot {
        own: body_of(my_snake, 0),
        rivals: bodies_in(other_snakes, snake_num as int),
        barriers: positions_of(barriers),
        foods: positions_of(foods),
        size: board_size,
    }
}

/// The host's number for the first move of `path`; `NO_MOVE` where there is
/// no way or the way has no move.
pub open spec fn first_move_code(path: Option<Seq<Direction>>) -> int {
    match path {
        Some(p) if p.len() > 0 => p[0].code_of(),
        _ => NO_MOVE as int,
    }
}

/// Reads the positions of a flat list of coordinates.
pub fn read_positions(flat: &Vec<i32>) -> (r: Vec<Position>)
    requires
        flat@.len() % 2 == 0,
    ensures
        r@ == positions_of(flat@),
{
    let mut out: Vec<Position> = Vec::new();
    let mut i: usize = 0;
    while i < flat.len()
        invariant
            flat@.len() % 2 == 0,
            i % 2 == 0,
            i <= flat.len(),
            out@.len() == i / 2,
            forall|k: int| 0 <= k < out@.len() ==> out@[k] == pair_at(flat@, k),
        decreases flat.len() - i,
    {
        out.push(Position::new(flat[i], flat[i + 1]));
        i += 2;
    }
    assert(out@ =~= positions_of(flat@));
    out
}

/// Reads the `i`-th body of a flat list of coordinates.
pub fn read_body(flat: &Vec<i32>, i: usize) -> (r: Snake)
    requires
        8 * (i + 1) <= flat@.len(),
    ensures
        r.segments() == body_of(flat@, i as int),
        r.complete(),
{
    let mut snake = Snake::new();
    let mut j: usize = 0;
    while j < 4
        invariant
            8 * i + 8 <= flat.len(),
            j <= 4,
            snake.segments().len() == j,
            forall|k: int|
                0 <= k < j ==> snake.segments()[k] == pair_at(flat@, 4 * i + k),
        decreases 4 - j,
    {
        let at: usize = 8 * i + 2 * j;
        snake.append_body(Position::new(flat[at], flat[at + 1]));
        j += 1;
    }
    assert(snake.segments() =~= body_of(flat@, i as int));
    snake
}

/// Turns the flat lists of a host into the agent's snake, its rivals and the
/// food. Each body is four coordinate pairs, head first; the numbers of
/// rivals and of food cells are those that the lists hold.
pub fn process_input(
    input_my_snake: &Vec<i32>,
    snake_num: i32,
    input_other_snakes: &Vec<i32>,
    food_num: i32,
    input_foods: &Vec<i32>,
) -> (r: (Snake, Vec<Snake>, Vec<Position>))
    requires
        input_my_snake@.len() == 8,
        snake_num >= 0,
        input_other_snakes@.len() == 8 * snake_num,
        food_num >= 0,
        input_foods@.len() == 2 * food_num,
    ensures
        r.0.segments() == body_of(input_my_snake@, 0),
        r.0.complete(),
        bodies_of(r.1@) == bodies_in(input_other_snakes@, snake_num as int),
        forall|i: int| 0 <= i < r.1@.len() ==> (#[trigger] r.1@[i]).complete(),
        r.2@ == positions_of(input_foods@),
{
    let my_snake = read_body(input_my_snake, 0);
    let mut other_snakes: Vec<Snake> = Vec::new();
    let count: usize = input_other_snakes.len() / 8;
    let mut i: usize = 0;
    while i < count
        invariant
            count == snake_num,
            input_other_snakes@.len() == 8 * count,
            i <= count,
            other_snakes@.len() == i,
            forall|k: int|
                0 <= k < i ==> (#[trigger] other_snakes@[k]).segments() == body_of(
                    input_other_snakes@,
                    k,
                ),
        decreases count - i,
    {
        let snake = read_body(input_other_snakes, i);
        other_snakes.push(snake);
        i += 1;
    }
    assert(bodies_of(other_snakes@) =~= bodies_in(input_other_snakes@, snake_num as int));
    let foods = read_positions(input_foods);
    (my_snake, other_snakes, foods)
}

/// The next move of the agent among rivals, as the host's number for it:
/// 0 Up, 1 Left, 2 Down, 3 Right. The board has the side `board_size`; the
/// agent's body, the rival bodies and the food come as flat lists of
/// coordinates. The decision climbs the whole ladder of fallbacks, so a move
/// is always given.
pub fn greedy_snake_step(
    board_size: i32,
    input_my_snake: Vec<i32>,
    snake_num: i32,
    input_other_snakes: Vec<i32>,
    food_num: i32,
    input_foods: Vec<i32>,
    _round: i32,
) -> (r: i32)
    requires
        input_my_snake@.len() == 8,
        snake_num >= 0,
        input_other_snakes@.len() == 8 * snake_num,
        food_num >= 0,
        input_foods@.len() == 2 * food_num,
    ensures
        r == decision(
            snapshot_of(
                board_size,
                input_my_snake@,
                snake_num,
                input_other_snakes@,
                Seq::empty(),
                input_foods@,
            ),
        ).direction.code_of(),
        0 <= r <= 3,
{
    let (my_snake, other_snakes, foods) = process_input(
        &input_my_snake,
        snake_num,
        &input_other_snakes,
        food_num,
        &input_foods,
    );
    let board = Board::new(my_snake, other_snakes, foods, board_size);
    assert(board@ =~= snapshot_of(
        board_size,
        input_my_snake@,
        snake_num,
        input_other_snakes@,
        Seq::empty(),
        input_foods@,
    )) by {
        assert(positions_of(Seq::<i32>::empty()) =~= Seq::<Position>::empty());
    }
    decide(&board).direction.code()
}

/// The next move of a lone agent towards one apple on the board of side 8,
/// as the host's number for it, or `NO_MOVE` where the apple cannot be
/// reached. `obstacles` holds the barriers on the board as coordinate pairs.
pub fn greedy_snake_move_barriers(
    input_snake: Vec<i32>,
    input_apple: Vec<i32>,
    input_obtacles: Vec<i32>,
) -> (r: i32)
    requires
        input_snake@.len() == 8,
        input_apple@.len() == 2,
        input_obtacles@.len() % 2 == 0,
    ensures
        r == first_move_code(
            select(
                snapshot_of(
                    SMALL_BOARD,
                    input_snake@,
                    0,
                    Seq::empty(),
                    input_obtacles@,
                    input_apple@,
                ),
            ),
        ),
        -1 <= r <= 3,
{
    let snake = read_body(&input_snake, 0);
    let foods = read_positions(&input_apple);
    let barriers = read_positions(&input_obtacles);
    let board = Board::with_barriers(snake, Vec::new(), barriers, foods, SMALL_BOARD);
    assert(board@ =~= snapshot_of(
        SMALL_BOARD,
        input_snake@,
        0,
        Seq::empty(),
        input_obtacles@,
        input_apple@,
    )) by {
        assert(board@.rivals =~= bodies_in(Seq::<i32>::empty(), 0));
    }
    match find_astar_path(&board) {
        Some(p) => if p.len() > 0 {
            p[0].code()
        } else {
            NO_MOVE
        },
        None => NO_MOVE,
    }
}

/// The next move of a lone agent towards one apple on the empty board of
/// side 8, as the host's number for it, or `NO_MOVE` where the apple cannot
/// be reached.
pub fn greedy_snake_move(input_snake: Vec<i32>, input_apple: Vec<i32>) -> (r: i32)
    requires
        input_snake@.len() == 8,
        input_apple@.len() == 2,
    ensures
        r == first_move_code(
            select(
                snapshot_of(
                    SMALL_BOARD,
                    input_snake@,
                    0,
                    Seq::empty(),
                    Seq::empty(),
                    input_apple@,
                ),
            ),
        ),
        -1 <= r <= 3,
{
    greedy_snake_move_barriers(input_snake, input_apple, Vec::new())
}

} // verus!
