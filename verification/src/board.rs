//! The board of one decision and its obstacle model: which cells are unsafe
//! to enter, under a strict and under a loose reading.

use crate::grid::{adjacent, lemma_heading_step, representable, step};
use crate::grid::{Cell, Direction, Grid, Position};
use vstd::prelude::*;
use vstd::slice::slice_subrange;

verus! {

/// Whether one of the positions `ps` stands for the cell `c`.
pub open spec fn has(ps: Seq<Position>, c: Cell) -> bool {
    exists|j: int| 0 <= j < ps.len() && (#[trigger] ps[j])@ == c
}

/// Whether a segment of `body` other than its tail lies on `c`. The tail
/// leaves its cell in the tick in which a head could enter it, so it does not
/// count.
pub open spec fn body_at(body: Seq<Position>, c: Cell) -> bool {
    body.len() >= 3 && (body[0]@ == c || body[1]@ == c || body[2]@ == c)
}

/// Whether the head of `body` could move onto `c` in one tick.
pub open spec fn strikes(body: Seq<Position>, c: Cell) -> bool {
    body.len() >= 1 && adjacent(body[0]@, c)
}

/// Whether a segment other than the tail of one of the first `n` bodies lies
/// on `c`.
pub open spec fn occupied_upto(bodies: Seq<Seq<Position>>, n: int, c: Cell) -> bool {
    exists|i: int| 0 <= i < n && i < bodies.len() && body_at(#[trigger] bodies[i], c)
}

/// Whether the head of one of the first `n` bodies could move onto `c` in one
/// tick.
pub open spec fn menaced_upto(bodies: Seq<Seq<Position>>, n: int, c: Cell) -> bool {
    exists|i: int| 0 <= i < n && i < bodies.len() && strikes(#[trigger] bodies[i], c)
}

/// Whether a segment other than the tail of one of `bodies` lies on `c`.
pub open spec fn occupied_by(bodies: Seq<Seq<Position>>, c: Cell) -> bool {
    occupied_upto(bodies, bodies.len() as int, c)
}

/// Whether the head of one of `bodies` could move onto `c` in one tick.
pub open spec fn menaced_by(bodies: Seq<Seq<Position>>, c: Cell) -> bool {
    menaced_upto(bodies, bodies.len() as int, c)
}

/// The segments of each snake of `snakes`, head first.
pub open spec fn bodies_of(snakes: Seq<Snake>) -> Seq<Seq<Position>> {
    Seq::new(snakes.len(), |i: int| snakes[i].segments())
}

/// The position that stands for the cell `c`, where its coordinates fit the
/// machine.
pub open spec fn position_at(c: Cell) -> Position {
    Position { x: c.x as i32, y: c.y as i32 }
}

/// The list `list` with the first three segments of `body` behind it.
pub open spec fn with_body(list: Seq<Position>, body: Seq<Position>) -> Seq<Position> {
    list.push(body[0]).push(body[1]).push(body[2])
}

/// The list `list` with the neighbour of `head` in direction `d` behind it,
/// unless the list has that cell already or the cell has a coordinate outside
/// the machine range.
pub open spec fn with_neighbor(list: Seq<Position>, head: Position, d: Direction) -> Seq<
    Position,
> {
    let c = step(head@, d);
    if representable(c) && !(has(list, c)) {
        list.push(position_at(c))
    } else {
        list
    }
}

/// The list `list` with the four neighbours of `head` behind it, in the order
/// Up, Down, Left, Right, each unless the list has it already.
pub open spec fn with_reach(list: Seq<Position>, head: Position) -> Seq<Position> {
    with_neighbor(
        with_neighbor(
            with_neighbor(with_neighbor(list, head, Direction::Up), head, Direction::Down),
            head,
            Direction::Left,
        ),
        head,
        Direction::Right,
    )
}

/// The strict obstacle list of the first `n` bodies: the first three segments
/// of each, body after body.
pub open spec fn strict_list(bodies: Seq<Seq<Position>>, n: int) -> Seq<Position>
    decreases n,
{
    if n <= 0 {
        Seq::empty()
    } else {
        with_body(strict_list(bodies, n - 1), bodies[n - 1])
    }
}

/// The loose obstacle list of the first `n` bodies: for each body its first
/// three segments, then the neighbours of its head that the list lacks.
pub open spec fn loose_list(bodies: Seq<Seq<Position>>, n: int) -> Seq<Position>
    decreases n,
{
    if n <= 0 {
        Seq::empty()
    } else {
        with_reach(with_body(loose_list(bodies, n - 1), bodies[n - 1]), bodies[n - 1][0])
    }
}

/// How much counts as an obstacle.
#[derive(Clone, Copy, PartialEq, Eq, Structural, Debug)]
pub enum Severity {
    /// Cells off the board and occupied cells.
    Strict,
    /// As strict, and the cells next to a rival's head; but a food cell off
    /// the board's outer ring is never an obstacle.
    Loose,
}

/// A snake: its segments, head first. A complete body has four.
#[derive(Debug)]
pub struct Snake {
    body: Vec<Position>,
}

impl Snake {
    /// The segments, head first.
    pub closed spec fn segments(&self) -> Seq<Position> {
        self.body@
    }

    /// Whether the body has its four segments.
    pub open spec fn complete(&self) -> bool {
        self.segments().len() == 4
    }

    pub fn new() -> (r: Snake)
        ensures
            r.segments() == Seq::<Position>::empty(),
    {
        Snake { body: Vec::new() }
    }

    /// Adds a segment behind those that are there. A body takes four.
    pub fn append_body(&mut self, pos: Position)
        requires
            old(self).segments().len() < 4,
        ensures
            final(self).segments() == old(self).segments().push(pos),
    {
        self.body.push(pos);
    }

    pub fn get_head(&self) -> (r: &Position)
        requires
            self.segments().len() >= 1,
        ensures
            *r == self.segments()[0],
    {
        &self.body[0]
    }

    /// The first three segments: all but the tail of a complete body.
    pub fn get_without_tail(&self) -> (r: &[Position])
        requires
            self.segments().len() >= 3,
        ensures
            r@ == self.segments().subrange(0, 3),
    {
        slice_subrange(self.body.as_slice(), 0, 3)
    }
}

/// Whether `p` is among `v`.
pub fn contains_position(v: &Vec<Position>, p: &Position) -> (b: bool)
    ensures
        b == v@.contains(*p),
        b == has(v@, p@),
{
    let mut i: usize = 0;
    while i < v.len()
        invariant
            i <= v.len(),
            forall|j: int| 0 <= j < i ==> v@[j] != *p,
        decreases v.len() - i,
    {
        if v[i] == *p {
            assert(v@[i as int]@ == p@);
            return true;
        }
        i += 1;
    }
    assert forall|j: int| 0 <= j < v@.len() implies (#[trigger] v@[j])@ != p@ by {
        assert(v@[j] != *p);
    }
    false
}

fn push_position(v: &mut Vec<Position>, x: Position)
    ensures
        final(v)@ == old(v)@.push(x),
        forall|p: Position| final(v)@.contains(p) <==> old(v)@.contains(p) || p == x,
{
    v.push(x);
    let ghost before = old(v)@;
    let ghost after = v@;
    assert forall|p: Position| after.contains(p) <==> before.contains(p) || p == x by {
        if before.contains(p) {
            let j = choose|j: int| 0 <= j < before.len() && before[j] == p;
            assert(after[j] == p);
        }
        if p == x {
            assert(after[before.len() as int] == p);
        }
    }
}

fn push_neighbor(v: &mut Vec<Position>, head: &Position, d: Direction)
    ensures
        final(v)@ == with_neighbor(old(v)@, *head, d),
        forall|p: Position| final(v)@.contains(p) <==> old(v)@.contains(p) || p@ == step(head@, d),
{
    match head.neighbor(d) {
        Some(pos) => {
            if !contains_position(v, &pos) {
                push_position(v, pos);
            }
        },
        None => {},
    }
}

fn push_body(v: &mut Vec<Position>, snake: &Snake)
    requires
        snake.segments().len() >= 3,
    ensures
        final(v)@ == with_body(old(v)@, snake.segments()),
        forall|p: Position|
            final(v)@.contains(p) <==> old(v)@.contains(p) || body_at(snake.segments(), p@),
{
    let part = snake.get_without_tail();
    push_position(v, part[0]);
    push_position(v, part[1]);
    push_position(v, part[2]);
}

proof fn lemma_adjacent(a: Cell, b: Cell)
    ensures
        adjacent(a, b) <==> b == step(a, Direction::Up) || b == step(a, Direction::Down) || b
            == step(a, Direction::Left) || b == step(a, Direction::Right),
{
    lemma_heading_step(a, Direction::Up);
    lemma_heading_step(a, Direction::Down);
    lemma_heading_step(a, Direction::Left);
    lemma_heading_step(a, Direction::Right);
}

/// The board of one decision: the agent's own snake, its rivals, fixed
/// barriers, the food, and the side of the square board, whose cells have
/// coordinates from 1 to that side.
#[derive(Debug)]
pub struct Board {
    my_snake: Snake,
    other_snakes: Vec<Snake>,
    barriers: Vec<Position>,
    obstacles: Vec<Position>,
    strict_obstacles: Vec<Position>,
    foods: Vec<Position>,
    size: i32,
}

/// What a board says: the snapshot on which a decision depends, and on
/// nothing else.
pub struct Snapshot {
    /// The agent's own segments, head first.
    pub own: Seq<Position>,
    /// The segments of each rival, head first.
    pub rivals: Seq<Seq<Position>>,
    /// The fixed barriers.
    pub barriers: Seq<Position>,
    /// The food, in the order in which it was given.
    pub foods: Seq<Position>,
    /// The side of the board.
    pub size: i32,
}

impl Snapshot {
    /// The agent's head.
    pub open spec fn head(self) -> Position {
        self.own[0]
    }

    /// Whether every snake has its four segments.
    pub open spec fn complete(self) -> bool {
        &&& self.own.len() == 4
        &&& forall|i: int| 0 <= i < self.rivals.len() ==> (#[trigger] self.rivals[i]).len() == 4
    }

    /// Whether `c` is occupied: by a segment of the agent or of a rival, the
    /// tails apart, or by a barrier.
    pub open spec fn occupies(self, c: Cell) -> bool {
        body_at(self.own, c) || has(self.barriers, c) || occupied_by(self.rivals, c)
    }

    /// Whether the head of a rival could move onto `c` in one tick.
    pub open spec fn menaces(self, c: Cell) -> bool {
        menaced_by(self.rivals, c)
    }

    /// Whether `c` is a food cell off the outer ring of the board.
    pub open spec fn sheltered_food(self, c: Cell) -> bool {
        has(self.foods, c) && 1 < c.x < self.size && 1 < c.y < self.size
    }

    /// The strict obstacle model: the cells off the board and the occupied
    /// cells. Food makes no difference.
    pub open spec fn strict_grid(self) -> Grid {
        Grid { size: self.size as int, walls: Set::new(|c: Cell| self.occupies(c)) }
    }

    /// The loose obstacle model: as the strict one, and the cells next to a
    /// rival's head. A food cell off the outer ring of the board is never an
    /// obstacle.
    pub open spec fn loose_grid(self) -> Grid {
        Grid {
            size: self.size as int,
            walls: Set::new(
                |c: Cell| (self.occupies(c) || self.menaces(c)) && !self.sheltered_food(c),
            ),
        }
    }

    /// The obstacle model of the given severity.
    pub open spec fn grid(self, severity: Severity) -> Grid {
        match severity {
            Severity::Strict => self.strict_grid(),
            Severity::Loose => self.loose_grid(),
        }
    }
}

impl View for Board {
    type V = Snapshot;

    closed spec fn view(&self) -> Snapshot {
        Snapshot {
            own: self.my_snake.segments(),
            rivals: bodies_of(self.other_snakes@),
            barriers: self.barriers@,
            foods: self.foods@,
            size: self.size,
        }
    }
}

impl Board {
    /// Whether the obstacle lists that the board keeps hold what the snakes
    /// and barriers make unsafe.
    pub closed spec fn cached(&self) -> bool {
        &&& forall|p: Position|
            self.strict_obstacles@.contains(p) <==> has(self.barriers@, p@) || occupied_by(
                bodies_of(self.other_snakes@),
                p@,
            )
        &&& forall|p: Position|
            self.obstacles@.contains(p) <==> has(self.barriers@, p@) || occupied_by(
                bodies_of(self.other_snakes@),
                p@,
            ) || menaced_by(bodies_of(self.other_snakes@), p@)
    }

    /// Whether the board is well formed: every snake is complete, and the
    /// obstacle lists are what they were built to be.
    pub open spec fn wf(&self) -> bool {
        self@.complete() && self.cached()
    }

    /// A board without barriers.
    pub fn new(my_snake: Snake, other_snakes: Vec<Snake>, foods: Vec<Position>, size: i32) -> (r:
        Board)
        requires
            my_snake.complete(),
            forall|i: int| 0 <= i < other_snakes@.len() ==> (#[trigger] other_snakes@[i]).complete(),
        ensures
            r.wf(),
            r@ == (Snapshot {
                own: my_snake.segments(),
                rivals: bodies_of(other_snakes@),
                barriers: Seq::<Position>::empty(),
                foods: foods@,
                size: size,
            }),
    {
        Board::with_barriers(my_snake, other_snakes, Vec::new(), foods, size)
    }

    /// A board with fixed barriers: cells that are occupied whatever the
    /// snakes do.
    pub fn with_barriers(
        my_snake: Snake,
        other_snakes: Vec<Snake>,
        barriers: Vec<Position>,
        foods: Vec<Position>,
        size: i32,
    ) -> (r: Board)
        requires
            my_snake.complete(),
            forall|i: int| 0 <= i < other_snakes@.len() ==> (#[trigger] other_snakes@[i]).complete(),
        ensures
            r.wf(),
            r@ == (Snapshot {
                own: my_snake.segments(),
                rivals: bodies_of(other_snakes@),
                barriers: barriers@,
                foods: foods@,
                size: size,
            }),
    {
        let mut obstacles = Board::build_obstacles(&other_snakes);
        let mut strict_obstacles = Board::build_strict_obstacles(&other_snakes);
        let mut i: usize = 0;
        while i < barriers.len()
            invariant
                i <= barriers.len(),
                forall|p: Position|
                    strict_obstacles@.contains(p) <==> has(barriers@.take(i as int), p@)
                        || occupied_by(bodies_of(other_snakes@), p@),
                forall|p: Position|
                    obstacles@.contains(p) <==> has(barriers@.take(i as int), p@) || occupied_by(
                        bodies_of(other_snakes@),
                        p@,
                    ) || menaced_by(bodies_of(other_snakes@), p@),
            decreases barriers.len() - i,
        {
            let b = barriers[i];
            let ghost before = barriers@.take(i as int);
            let ghost after = barriers@.take(i + 1);
            proof {
                assert forall|p: Position| has(after, p@) <==> has(before, p@) || p == b by {
                    if has(before, p@) {
                        let j = choose|j: int| 0 <= j < before.len() && (#[trigger] before[j])@ == p@;
                        assert(after[j]@ == p@);
                    }
                    if p == b {
                        assert(after[i as int]@ == p@);
                    }
                    if has(after, p@) {
                        let j = choose|j: int| 0 <= j < after.len() && (#[trigger] after[j])@ == p@;
                        if j < i {
                            assert(before[j]@ == p@);
                        }
                    }
                }
            }
            push_position(&mut obstacles, b);
            push_position(&mut strict_obstacles, b);
            i += 1;
        }
        assert(barriers@.take(barriers@.len() as int) =~= barriers@);
        Board { my_snake, other_snakes, barriers, obstacles, strict_obstacles, foods, size }
    }

    /// The cells that the loose model takes from the snakes `snakes`: those
    /// of their segments, the tails apart, and those next to their heads. The
    /// list holds, snake after snake, the first three segments and then each
    /// neighbour of the head that is not yet in the list.
    pub fn build_obstacles(snakes: &Vec<Snake>) -> (r: Vec<Position>)
        requires
            forall|i: int| 0 <= i < snakes@.len() ==> (#[trigger] snakes@[i]).segments().len() >= 3,
        ensures
            r@ == loose_list(bodies_of(snakes@), snakes@.len() as int),
            forall|p: Position|
                r@.contains(p) <==> occupied_by(bodies_of(snakes@), p@) || menaced_by(
                    bodies_of(snakes@),
                    p@,
                ),
    {
        let mut obstacles: Vec<Position> = Vec::new();
        let ghost bodies = bodies_of(snakes@);
        let mut i: usize = 0;
        while i < snakes.len()
            invariant
                i <= snakes.len(),
                bodies == bodies_of(snakes@),
                forall|i: int|
                    0 <= i < snakes@.len() ==> (#[trigger] snakes@[i]).segments().len() >= 3,
                obstacles@ == loose_list(bodies, i as int),
                forall|p: Position|
                    obstacles@.contains(p) <==> occupied_upto(bodies, i as int, p@) || menaced_upto(
                        bodies,
                        i as int,
                        p@,
                    ),
            decreases snakes.len() - i,
        {
            let snake = &snakes[i];
            let ghost body = snake.segments();
            assert(bodies[i as int] == body);
            push_body(&mut obstacles, snake);
            let head = snake.get_head();
            push_neighbor(&mut obstacles, head, Direction::Up);
            push_neighbor(&mut obstacles, head, Direction::Down);
            push_neighbor(&mut obstacles, head, Direction::Left);
            push_neighbor(&mut obstacles, head, Direction::Right);
            proof {
                assert forall|p: Position|
                    obstacles@.contains(p) <==> occupied_upto(bodies, i + 1, p@) || menaced_upto(
                        bodies,
                        i + 1,
                        p@,
                    ) by {
                    lemma_adjacent(head@, p@);
                    lemma_upto_next(bodies, i as int, p@);
                }
            }
            i += 1;
        }
        obstacles
    }

    /// The cells that the strict model takes from the snakes `snakes`: those
    /// of their segments, the tails apart.
    pub fn build_strict_obstacles(snakes: &Vec<Snake>) -> (r: Vec<Position>)
        requires
            forall|i: int| 0 <= i < snakes@.len() ==> (#[trigger] snakes@[i]).segments().len() >= 3,
        ensures
            r@ == strict_list(bodies_of(snakes@), snakes@.len() as int),
            forall|p: Position| r@.contains(p) <==> occupied_by(bodies_of(snakes@), p@),
    {
        let mut obstacles: Vec<Position> = Vec::new();
        let ghost bodies = bodies_of(snakes@);
        let mut i: usize = 0;
        while i < snakes.len()
            invariant
                i <= snakes.len(),
                bodies == bodies_of(snakes@),
                forall|i: int|
                    0 <= i < snakes@.len() ==> (#[trigger] snakes@[i]).segments().len() >= 3,
                obstacles@ == strict_list(bodies, i as int),
                forall|p: Position| obstacles@.contains(p) <==> occupied_upto(bodies, i as int, p@),
            decreases snakes.len() - i,
        {
            let snake = &snakes[i];
            assert(bodies[i as int] == snake.segments());
            push_body(&mut obstacles, snake);
            proof {
                assert forall|p: Position|
                    obstacles@.contains(p) <==> occupied_upto(bodies, i + 1, p@) by {
                    lemma_upto_next(bodies, i as int, p@);
                }
            }
            i += 1;
        }
        obstacles
    }

    /// The loose check: whether `pos` is unsafe to enter when the cells next
    /// to rival heads count as obstacles and food off the outer ring never
    /// does.
    pub fn colision_check(&self, pos: &Position) -> (r: bool)
        requires
            self.wf(),
        ensures
            r == self@.loose_grid().blocked(pos@),
    {
        if contains_position(&self.foods, pos) && pos.get_x() > 1 && pos.get_y() > 1 && pos.get_x()
            < self.size && pos.get_y() < self.size {
            false
        } else if (pos.get_x() < 1 || pos.get_x() > self.size) || (pos.get_y() < 1 || pos.get_y()
            > self.size) {
            true
        } else {
            let part = self.my_snake.get_without_tail();
            part[0] == *pos || part[1] == *pos || part[2] == *pos || contains_position(
                &self.obstacles,
                pos,
            )
        }
    }

    /// The strict check: whether `pos` is off the board or occupied.
    pub fn strict_obstacles_check(&self, pos: &Position) -> (r: bool)
        requires
            self.wf(),
        ensures
            r == self@.strict_grid().blocked(pos@),
    {
        if (pos.get_x() < 1 || pos.get_x() > self.size) || (pos.get_y() < 1 || pos.get_y()
            > self.size) {
            true
        } else {
            let part = self.my_snake.get_without_tail();
            part[0] == *pos || part[1] == *pos || part[2] == *pos || contains_position(
                &self.strict_obstacles,
                pos,
            )
        }
    }

    /// The check of the given severity.
    pub fn blocked(&self, severity: Severity, pos: &Position) -> (r: bool)
        requires
            self.wf(),
        ensures
            r == self@.grid(severity).blocked(pos@),
    {
        match severity {
            Severity::Strict => self.strict_obstacles_check(pos),
            Severity::Loose => self.colision_check(pos),
        }
    }

    pub fn get_my_snake(&self) -> (r: &Snake)
        ensures
            r.segments() == self@.own,
    {
        &self.my_snake
    }

    pub fn get_other_snakes(&self) -> (r: &Vec<Snake>)
        ensures
            bodies_of(r@) == self@.rivals,
    {
        &self.other_snakes
    }

    pub fn get_foods(&self) -> (r: &Vec<Position>)
        ensures
            r@ == self@.foods,
    {
        &self.foods
    }

    /// The side of the board.
    pub fn get_size(&self) -> (r: i32)
        ensures
            r == self@.size,
    {
        self.size
    }
}

/// The loose model is the more cautious one: what the strict check refuses,
/// the loose check refuses too, food cells off the outer ring apart.
pub proof fn lemma_loose_covers_strict(board: Snapshot, c: Cell)
    requires
        board.strict_grid().blocked(c),
        !board.sheltered_food(c),
    ensures
        board.loose_grid().blocked(c),
{
}

proof fn lemma_upto_next(bodies: Seq<Seq<Position>>, i: int, c: Cell)
    requires
        0 <= i < bodies.len(),
    ensures
        occupied_upto(bodies, i + 1, c) <==> occupied_upto(bodies, i, c) || body_at(bodies[i], c),
        menaced_upto(bodies, i + 1, c) <==> menaced_upto(bodies, i, c) || strikes(bodies[i], c),
{
    if occupied_upto(bodies, i + 1, c) {
        let k = choose|k: int| 0 <= k < i + 1 && k < bodies.len() && body_at(#[trigger] bodies[k], c);
        if k < i {
            assert(occupied_upto(bodies, i, c));
        }
    }
    if occupied_upto(bodies, i, c) {
        let k = choose|k: int| 0 <= k < i && k < bodies.len() && body_at(#[trigger] bodies[k], c);
        assert(body_at(bodies[k], c));
    }
    if menaced_upto(bodies, i + 1, c) {
        let k = choose|k: int| 0 <= k < i + 1 && k < bodies.len() && strikes(#[trigger] bodies[k], c);
        if k < i {
            assert(menaced_upto(bodies, i, c));
        }
    }
    if menaced_upto(bodies, i, c) {
        let k = choose|k: int| 0 <= k < i && k < bodies.len() && strikes(#[trigger] bodies[k], c);
        assert(strikes(bodies[k], c));
    }
}

} // verus!
