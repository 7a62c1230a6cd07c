//! Grid geometry: cells, positions, the four unit steps and walks made of them.

use vstd::prelude::*;
use vstd::set_lib::lemma_len_subset;
use vstd::set_lib::lemma_set_disjoint_lens;

verus! {

/// A point of the unbounded integer plane. Contracts speak of cells; a
/// [`Position`] is a cell whose coordinates fit the machine.
pub struct Cell {
    pub x: int,
    pub y: int,
}

/// A grid position with machine coordinates.
#[derive(Clone, Copy, PartialEq, Eq, Structural, Hash, Debug)]
pub struct Position {
    pub x: i32,
    pub y: i32,
}

/// One of the four cardinal moves. The declaration order Up, Down, Left, Right
/// is the order in which candidates are tried wherever ties are broken.
#[derive(Clone, Copy, PartialEq, Eq, Structural, Hash, Debug)]
pub enum Direction {
    Up,
    Down,
    Left,
    Right,
}

impl View for Position {
    type V = Cell;

    open spec fn view(&self) -> Cell {
        Cell { x: self.x as int, y: self.y as int }
    }
}

/// The distance between two coordinates on one axis.
pub open spec fn gap(a: int, b: int) -> int {
    if a <= b {
        b - a
    } else {
        a - b
    }
}

/// Manhattan distance: `|ax - bx| + |ay - by|`.
pub open spec fn manhattan(a: Cell, b: Cell) -> int {
    gap(a.x, b.x) + gap(a.y, b.y)
}

/// The cell reached from `c` by one move in direction `d`.
pub open spec fn step(c: Cell, d: Direction) -> Cell {
    match d {
        Direction::Up => Cell { x: c.x, y: c.y + 1 },
        Direction::Down => Cell { x: c.x, y: c.y - 1 },
        Direction::Left => Cell { x: c.x - 1, y: c.y },
        Direction::Right => Cell { x: c.x + 1, y: c.y },
    }
}

/// Whether both coordinates of `c` fit in an `i32`.
pub open spec fn representable(c: Cell) -> bool {
    i32::MIN <= c.x <= i32::MAX && i32::MIN <= c.y <= i32::MAX
}

/// The cell at which `path` ends when it is walked from `start`.
pub open spec fn walk(start: Cell, path: Seq<Direction>) -> Cell
    decreases path.len(),
{
    if path.len() == 0 {
        start
    } else {
        step(walk(start, path.drop_last()), path.last())
    }
}

/// The four directions in the order in which they are tried.
pub open spec fn directions() -> Seq<Direction> {
    seq![Direction::Up, Direction::Down, Direction::Left, Direction::Right]
}

/// The direction that leads from `from` to `to` in one move: the first in
/// trial order whose step matches, or `None` where the two are not one move
/// apart.
pub open spec fn heading(from: Cell, to: Cell) -> Option<Direction> {
    if step(from, Direction::Up) == to {
        Some(Direction::Up)
    } else if step(from, Direction::Down) == to {
        Some(Direction::Down)
    } else if step(from, Direction::Left) == to {
        Some(Direction::Left)
    } else if step(from, Direction::Right) == to {
        Some(Direction::Right)
    } else {
        None
    }
}

/// Whether `b` is one move away from `a`.
pub open spec fn adjacent(a: Cell, b: Cell) -> bool {
    heading(a, b) is Some
}

impl Direction {
    /// The place of the direction in the trial order.
    pub open spec fn rank(self) -> int {
        match self {
            Direction::Up => 0,
            Direction::Down => 1,
            Direction::Left => 2,
            Direction::Right => 3,
        }
    }

    /// The number by which a host names the direction.
    pub open spec fn code_of(self) -> int {
        match self {
            Direction::Up => 0,
            Direction::Left => 1,
            Direction::Down => 2,
            Direction::Right => 3,
        }
    }

    /// The four directions in trial order.
    pub fn iter() -> (r: [Direction; 4])
        ensures
            r@ == directions(),
    {
        let r = [Direction::Up, Direction::Down, Direction::Left, Direction::Right];
        assert(r@ =~= directions());
        r
    }

    /// The host's number for the direction: 0 Up, 1 Left, 2 Down, 3 Right.
    pub fn code(&self) -> (r: i32)
        ensures
            r == self.code_of(),
    {
        match self {
            Direction::Up => 0,
            Direction::Left => 1,
            Direction::Down => 2,
            Direction::Right => 3,
        }
    }
}

impl Position {
    pub fn new(x: i32, y: i32) -> (r: Position)
        ensures
            r.x == x,
            r.y == y,
    {
        Position { x, y }
    }

    pub fn up(pos: &Position) -> (r: Position)
        requires
            pos.y < i32::MAX,
        ensures
            r@ == step(pos@, Direction::Up),
    {
        Position { x: pos.x, y: pos.y + 1 }
    }

    pub fn down(pos: &Position) -> (r: Position)
        requires
            pos.y > i32::MIN,
        ensures
            r@ == step(pos@, Direction::Down),
    {
        Position { x: pos.x, y: pos.y - 1 }
    }

    pub fn left(pos: &Position) -> (r: Position)
        requires
            pos.x > i32::MIN,
        ensures
            r@ == step(pos@, Direction::Left),
    {
        Position { x: pos.x - 1, y: pos.y }
    }

    pub fn right(pos: &Position) -> (r: Position)
        requires
            pos.x < i32::MAX,
        ensures
            r@ == step(pos@, Direction::Right),
    {
        Position { x: pos.x + 1, y: pos.y }
    }

    pub fn get_x(&self) -> (r: i32)
        ensures
            r == self.x,
    {
        self.x
    }

    pub fn get_y(&self) -> (r: i32)
        ensures
            r == self.y,
    {
        self.y
    }

    /// The neighbour in direction `d`, or `None` where that cell has a
    /// coordinate outside the `i32` range.
    pub fn neighbor(&self, d: Direction) -> (r: Option<Position>)
        ensures
            representable(step(self@, d)) <==> r is Some,
            r matches Some(p) ==> p@ == step(self@, d),
    {
        match d {
            Direction::Up => if self.y < i32::MAX {
                Some(Position::up(self))
            } else {
                None
            },
            Direction::Down => if self.y > i32::MIN {
                Some(Position::down(self))
            } else {
                None
            },
            Direction::Left => if self.x > i32::MIN {
                Some(Position::left(self))
            } else {
                None
            },
            Direction::Right => if self.x < i32::MAX {
                Some(Position::right(self))
            } else {
                None
            },
        }
    }

    /// Manhattan distance to `other`.
    pub fn distance(&self, other: &Position) -> (r: i64)
        ensures
            r == manhattan(self@, other@),
            0 <= r <= 0x1_FFFF_FFFE,
    {
        let ax: i64 = self.x as i64;
        let ay: i64 = self.y as i64;
        let bx: i64 = other.x as i64;
        let by: i64 = other.y as i64;
        let dx: i64 = if ax <= bx {
            bx - ax
        } else {
            ax - bx
        };
        let dy: i64 = if ay <= by {
            by - ay
        } else {
            ay - by
        };
        dx + dy
    }
}

/// One move changes the Manhattan distance to any cell by exactly one, so the
/// distance never overestimates the moves still needed and never drops by
/// more than a move costs.
pub proof fn lemma_manhattan_step(c: Cell, d: Direction, goal: Cell)
    ensures
        manhattan(c, goal) <= manhattan(step(c, d), goal) + 1,
        manhattan(step(c, d), goal) <= manhattan(c, goal) + 1,
        manhattan(c, goal) >= 0,
        manhattan(c, goal) == 0 <==> c == goal,
{
}

/// The Manhattan distance never overestimates: a walk that ends at `goal`
/// has at least as many moves as the distance from its start to `goal`, and
/// any walk can bring the distance down by no more than its length.
pub proof fn lemma_manhattan_walk(start: Cell, path: Seq<Direction>, goal: Cell)
    ensures
        manhattan(start, goal) <= manhattan(walk(start, path), goal) + path.len(),
    decreases path.len(),
{
    if path.len() > 0 {
        lemma_manhattan_walk(start, path.drop_last(), goal);
        lemma_manhattan_step(walk(start, path.drop_last()), path.last(), goal);
    }
}

/// The heading between a cell and its neighbour is the move that was made.
pub proof fn lemma_heading_step(c: Cell, d: Direction)
    ensures
        heading(c, step(c, d)) == Some(d),
        adjacent(c, step(c, d)),
{
}

/// What a walk may not enter: every cell off the board `[1, size] x [1, size]`
/// and the walls on it.
pub struct Grid {
    pub size: int,
    pub walls: Set<Cell>,
}

impl Grid {
    /// Whether `c` lies on the board.
    pub open spec fn inside(self, c: Cell) -> bool {
        1 <= c.x <= self.size && 1 <= c.y <= self.size
    }

    /// Whether `c` may not be entered.
    pub open spec fn blocked(self, c: Cell) -> bool {
        !self.inside(c) || self.walls.contains(c)
    }

    /// The cells that may be entered.
    pub open spec fn free(self) -> Set<Cell> {
        Set::new(|c: Cell| !self.blocked(c))
    }

    /// Whether every cell that `path` enters, walked from `start`, may be
    /// entered. The start cell itself is not entered.
    pub open spec fn admits(self, start: Cell, path: Seq<Direction>) -> bool
        decreases path.len(),
    {
        path.len() == 0 || (self.admits(start, path.drop_last()) && !self.blocked(
            walk(start, path),
        ))
    }

    /// Whether `path` is a way from `start` to `goal` through cells that may
    /// be entered.
    pub open spec fn connects(self, start: Cell, goal: Cell, path: Seq<Direction>) -> bool {
        self.admits(start, path) && walk(start, path) == goal
    }

    /// Whether some way leads from `start` to `goal`.
    pub open spec fn reachable(self, start: Cell, goal: Cell) -> bool {
        exists|path: Seq<Direction>| self.connects(start, goal, path)
    }
}

/// The cells with `1 <= x <= w` and `1 <= y <= h`.
pub open spec fn rectangle(w: int, h: int) -> Set<Cell> {
    Set::new(|c: Cell| 1 <= c.x <= w && 1 <= c.y <= h)
}

proof fn lemma_column(x: int, h: int)
    requires
        h >= 0,
    ensures
        Set::new(|c: Cell| c.x == x && 1 <= c.y <= h).finite(),
        Set::new(|c: Cell| c.x == x && 1 <= c.y <= h).len() == h,
    decreases h,
{
    let col = Set::new(|c: Cell| c.x == x && 1 <= c.y <= h);
    if h == 0 {
        assert(col =~= Set::<Cell>::empty());
    } else {
        let below = Set::new(|c: Cell| c.x == x && 1 <= c.y <= h - 1);
        lemma_column(x, h - 1);
        assert(col =~= below.insert(Cell { x: x, y: h }));
    }
}

/// A rectangle of cells is finite and holds `w * h` of them.
pub proof fn lemma_rectangle(w: int, h: int)
    requires
        w >= 0,
        h >= 0,
    ensures
        rectangle(w, h).finite(),
        rectangle(w, h).len() == w * h,
    decreases w,
{
    if w == 0 {
        assert(rectangle(w, h) =~= Set::<Cell>::empty());
    } else {
        let col = Set::new(|c: Cell| c.x == w && 1 <= c.y <= h);
        lemma_rectangle(w - 1, h);
        lemma_column(w, h);
        assert(rectangle(w, h) =~= rectangle(w - 1, h) + col);
        assert(rectangle(w - 1, h).disjoint(col));
        lemma_set_disjoint_lens(rectangle(w - 1, h), col);
        assert(w * h == (w - 1) * h + h) by (nonlinear_arith);
    }
}

/// The cells that may be entered are finitely many: no more than the board
/// holds.
pub proof fn lemma_free_finite(grid: Grid)
    ensures
        grid.free().finite(),
        grid.size >= 0 ==> grid.free().len() <= grid.size * grid.size,
        grid.size < 0 ==> grid.free().len() == 0,
{
    if grid.size >= 0 {
        lemma_rectangle(grid.size, grid.size);
        assert(grid.free().subset_of(rectangle(grid.size, grid.size)));
        lemma_len_subset(grid.free(), rectangle(grid.size, grid.size));
    } else {
        assert(grid.free() =~= Set::<Cell>::empty());
    }
}

/// Where a heading exists, it is the move that leads from the one cell to the
/// other.
pub proof fn lemma_heading_some(a: Cell, b: Cell)
    requires
        adjacent(a, b),
    ensures
        step(a, heading(a, b)->Some_0) == b,
{
}

/// A way that is extended by one admissible move is still a way.
pub proof fn lemma_admits_push(grid: Grid, start: Cell, path: Seq<Direction>, d: Direction)
    requires
        grid.admits(start, path),
        !grid.blocked(step(walk(start, path), d)),
    ensures
        grid.admits(start, path.push(d)),
        walk(start, path.push(d)) == step(walk(start, path), d),
{
    assert(path.push(d).drop_last() =~= path);
}

} // verus!
