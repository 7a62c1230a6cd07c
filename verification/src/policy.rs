//! Goal selection among the food cells and the ladder of fallbacks that turns
//! a board into one move.

use crate::admissible::lemma_astar_admissible;
use crate::astar::{search, task_of};
use crate::board::{Board, Severity, Snapshot};
use crate::grid::{gap, manhattan, step, walk, Cell, Direction, Grid, Position};
use crate::model::astar;
use vstd::prelude::*;

verus! {

/// The rung of the ladder on which a decision was made.
#[derive(Clone, Copy, PartialEq, Eq, Structural, Debug)]
pub enum Tier {
    /// The first move of a shortest way to food.
    Optimal,
    /// The safe move that ends nearest to food.
    Greedy,
    /// The move onto a cell that the loose check lets pass and that ends
    /// nearest to the centre of the board.
    Survival,
    /// No move passed any check: the fixed answer.
    Default,
}

/// One decision: the move, and the rung on which it was found.
#[derive(Clone, Copy, PartialEq, Eq, Structural, Debug)]
pub struct Decision {
    pub tier: Tier,
    pub direction: Direction,
}

/// The better of the best way so far and a way just found: the one with
/// fewer moves, and the earlier one where they have as many.
pub open spec fn keep_shorter(
    best: Option<Seq<Direction>>,
    found: Option<Seq<Direction>>,
) -> Option<Seq<Direction>> {
    match found {
        Some(p) => match best {
            Some(b) => if p.len() < b.len() {
                found
            } else {
                best
            },
            None => found,
        },
        None => best,
    }
}

/// The search from the agent's head to the `i`-th food cell, under the
/// strict obstacle model.
pub open spec fn hunt(board: Snapshot, i: int) -> Option<Seq<Direction>> {
    astar(task_of(board, Severity::Strict, board.head(), board.foods[i]))
}

/// The goal selector on the first `n` food cells.
pub open spec fn select_upto(board: Snapshot, n: int) -> Option<Seq<Direction>>
    decreases n,
{
    if n <= 0 {
        None
    } else {
        keep_shorter(select_upto(board, n - 1), hunt(board, n - 1))
    }
}

/// The goal selector: the shortest of the ways that the search finds to the
/// food cells, the first of them in the order of the food where several are
/// as short; `None` where no food can be reached.
pub open spec fn select(board: Snapshot) -> Option<Seq<Direction>> {
    select_upto(board, board.foods.len() as int)
}

/// The least Manhattan distance from `c` to a food cell; the largest `i64`
/// where there is no food.
pub open spec fn nearest_food(c: Cell, foods: Seq<Position>) -> int
    decreases foods.len(),
{
    if foods.len() == 0 {
        i64::MAX as int
    } else {
        let rest = nearest_food(c, foods.drop_last());
        let d = manhattan(c, foods.last()@);
        if d < rest {
            d
        } else {
            rest
        }
    }
}

/// Twice the Manhattan distance from `c` to the centre of the board. The
/// board spans the coordinates 1 to `size` on both axes, so both coordinates
/// of its centre are `(size + 1) / 2`: a cell where the side is odd, the
/// corner between four cells where it is even. Doubling keeps the measure
/// whole without changing which of two cells is nearer.
pub open spec fn off_center(c: Cell, size: int) -> int {
    gap(size + 1, 2 * c.x) + gap(size + 1, 2 * c.y)
}

/// What a one-step rung minimises at the cell `c`: under the strict check the
/// distance to the nearest food, under the loose check the distance to the
/// centre of the board, doubled.
pub open spec fn score(board: Snapshot, severity: Severity, c: Cell) -> int {
    match severity {
        Severity::Strict => nearest_food(c, board.foods),
        Severity::Loose => off_center(c, board.size as int),
    }
}

/// The cell that the agent's head enters by the move `d`.
pub open spec fn target(board: Snapshot, d: Direction) -> Cell {
    step(board.head()@, d)
}

/// Whether the move `d` passes the check of the given severity.
pub open spec fn survives(board: Snapshot, severity: Severity, d: Direction) -> bool {
    !board.grid(severity).blocked(target(board, d))
}

/// The choice after the move `d` has been considered: `d` replaces the best
/// move so far if it passes the check and scores strictly lower.
pub open spec fn prefer(
    board: Snapshot,
    severity: Severity,
    best: Option<Direction>,
    d: Direction,
) -> Option<Direction> {
    if !survives(board, severity, d) {
        best
    } else {
        match best {
            Some(b) => if score(board, severity, target(board, d)) < score(
                board,
                severity,
                target(board, b),
            ) {
                Some(d)
            } else {
                best
            },
            None => Some(d),
        }
    }
}

/// The one-step rung of the given severity: the four moves are considered in
/// the order Up, Down, Left, Right.
pub open spec fn one_step(board: Snapshot, severity: Severity) -> Option<Direction> {
    prefer(
        board,
        severity,
        prefer(
            board,
            severity,
            prefer(board, severity, prefer(board, severity, None, Direction::Up), Direction::Down),
            Direction::Left,
        ),
        Direction::Right,
    )
}

/// Whether `d` is the move that a one-step rung must choose: it passes the
/// check, no move that passes scores lower, and of those that score as low
/// it comes first in trial order.
pub open spec fn is_choice(board: Snapshot, severity: Severity, d: Direction) -> bool {
    &&& survives(board, severity, d)
    &&& forall|e: Direction| #[trigger]
        survives(board, severity, e) ==> {
            let sd = score(board, severity, target(board, d));
            let se = score(board, severity, target(board, e));
            sd < se || (sd == se && d.rank() <= e.rank())
        }
}

/// The decision for a board: the ladder is climbed from the top, and the
/// first rung that yields a move decides.
pub open spec fn decision(board: Snapshot) -> Decision {
    match select(board) {
        Some(p) if p.len() > 0 => Decision { tier: Tier::Optimal, direction: p[0] },
        _ => match one_step(board, Severity::Strict) {
            Some(d) => Decision { tier: Tier::Greedy, direction: d },
            None => match one_step(board, Severity::Loose) {
                Some(d) => Decision { tier: Tier::Survival, direction: d },
                None => Decision { tier: Tier::Default, direction: Direction::Up },
            },
        },
    }
}

/// What the goal selector yields on the first `n` food cells: a way to one
/// of them that no way to any of them undercuts, or `None` exactly where
/// none of them can be reached.
pub proof fn lemma_select_upto(board: Snapshot, n: int)
    requires
        0 <= n <= board.foods.len(),
    ensures
        match select_upto(board, n) {
            Some(p) => {
                &&& exists|i: int|
                    0 <= i < n && hunt(board, i) == Some(p) && #[trigger] board.strict_grid().connects(
                        board.head()@,
                        board.foods[i]@,
                        p,
                    )
                &&& forall|i: int, q: Seq<Direction>|
                    0 <= i < n && #[trigger] board.strict_grid().connects(
                        board.head()@,
                        board.foods[i]@,
                        q,
                    ) ==> p.len() <= q.len()
            },
            None => forall|i: int|
                0 <= i < n ==> !#[trigger] board.strict_grid().reachable(
                    board.head()@,
                    board.foods[i]@,
                ),
        },
    decreases n,
{
    if n > 0 {
        lemma_select_upto(board, n - 1);
        let task = task_of(board, Severity::Strict, board.head(), board.foods[n - 1]);
        lemma_astar_admissible(task);
        let grid = board.strict_grid();
        let head = board.head()@;
        let best = select_upto(board, n - 1);
        let found = hunt(board, n - 1);
        let kept = select_upto(board, n);
        match kept {
            Some(p) => {
                if kept == found && found is Some {
                    assert(grid.connects(head, board.foods[n - 1]@, p));
                } else {
                    let i = choose|i: int|
                        0 <= i < n - 1 && hunt(board, i) == Some(p) && #[trigger] grid.connects(
                            head,
                            board.foods[i]@,
                            p,
                        );
                    assert(grid.connects(head, board.foods[i]@, p));
                }
                assert forall|i: int, q: Seq<Direction>|
                    0 <= i < n && #[trigger] grid.connects(
                        head,
                        board.foods[i]@,
                        q,
                    ) implies p.len() <= q.len() by {
                    assert(grid.reachable(head, board.foods[i]@));
                    if i == n - 1 {
                        assert(found is Some);
                        assert(found->Some_0.len() <= q.len());
                    } else {
                        assert(best is Some);
                        assert(best->Some_0.len() <= q.len());
                    }
                }
            },
            None => {},
        }
    }
}

/// The goal selector reports no way exactly where no food cell can be
/// reached from the agent's head: food that is walled in is never a goal.
pub proof fn lemma_select_none(board: Snapshot)
    ensures
        select(board) is None <==> forall|i: int|
            0 <= i < board.foods.len() ==> !#[trigger] board.strict_grid().reachable(
                board.head()@,
                board.foods[i]@,
            ),
{
    lemma_select_upto(board, board.foods.len() as int);
    match select(board) {
        Some(p) => {
            let i = choose|i: int|
                0 <= i < board.foods.len() && hunt(board, i) == Some(p)
                    && #[trigger] board.strict_grid().connects(
                    board.head()@,
                    board.foods[i]@,
                    p,
                );
            assert(board.strict_grid().reachable(board.head()@, board.foods[i]@));
        },
        None => {},
    }
}

/// The decision depends on the snapshot and on nothing else: two boards that
/// say the same get the same decision, whenever and wherever it is made.
pub proof fn lemma_decision_determined(a: Board, b: Board)
    requires
        a@ == b@,
    ensures
        decision(a@) == decision(b@),
{
}

/// What the survival rung measures, in whole cells: the sum of the Manhattan
/// distances from `c` to the two central cells of the board, the one at
/// `(size + 1) / 2` and the one at `(size + 2) / 2` on both axes. Where the
/// side is odd the two are one cell, the centre, and the measure is twice
/// the distance to it.
pub proof fn lemma_off_center(c: Cell, size: int)
    ensures
        off_center(c, size) == manhattan(c, Cell { x: (size + 1) / 2, y: (size + 1) / 2 })
            + manhattan(c, Cell { x: (size + 2) / 2, y: (size + 2) / 2 }),
        size % 2 == 1 ==> off_center(c, size) == 2 * manhattan(
            c,
            Cell { x: (size + 1) / 2, y: (size + 1) / 2 },
        ),
{
}

/// A way that has a first move enters an unblocked cell by it.
pub proof fn lemma_admits_first(grid: Grid, start: Cell, path: Seq<Direction>)
    requires
        grid.admits(start, path),
        path.len() > 0,
    ensures
        !grid.blocked(step(start, path[0])),
    decreases path.len(),
{
    if path.len() == 1 {
        assert(path.drop_last().len() == 0);
        assert(walk(start, path) == step(walk(start, path.drop_last()), path.last()));
    } else {
        lemma_admits_first(grid, start, path.drop_last());
    }
}

/// The one-step rung chooses the move that it must, and fails only where
/// no move passes the check.
pub proof fn lemma_one_step(board: Snapshot, severity: Severity)
    ensures
        match one_step(board, severity) {
            Some(d) => is_choice(board, severity, d),
            None => forall|e: Direction| !#[trigger] survives(board, severity, e),
        },
{
    let a = prefer(board, severity, None, Direction::Up);
    let b = prefer(board, severity, a, Direction::Down);
    let c = prefer(board, severity, b, Direction::Left);
    let d = prefer(board, severity, c, Direction::Right);
    assert(d == one_step(board, severity));
    match d {
        Some(m) => {
            assert forall|e: Direction| #[trigger] survives(board, severity, e) implies {
                let sd = score(board, severity, target(board, m));
                let se = score(board, severity, target(board, e));
                sd < se || (sd == se && m.rank() <= e.rank())
            } by {
                match e {
                    Direction::Up => {},
                    Direction::Down => {},
                    Direction::Left => {},
                    Direction::Right => {},
                }
            }
        },
        None => {
            assert forall|e: Direction| !#[trigger] survives(board, severity, e) by {
                match e {
                    Direction::Up => {},
                    Direction::Down => {},
                    Direction::Left => {},
                    Direction::Right => {},
                }
            }
        },
    }
}

/// The ladder is climbed in order. The optimal rung decides exactly where the
/// goal selector finds a way that has a first move; the greedy rung exactly
/// where it does not and some move passes the strict check; the survival rung
/// exactly where neither holds and some move passes the loose check; and the
/// fixed answer, Up, is given exactly where nothing else was.
pub proof fn lemma_fallback_order(board: Snapshot)
    ensures
        decision(board).tier == Tier::Optimal <==> (select(board) matches Some(p) && p.len() > 0),
        decision(board).tier == Tier::Optimal ==> decision(board).direction == select(
            board,
        )->Some_0[0],
        decision(board).tier == Tier::Greedy <==> !(select(board) matches Some(p) && p.len() > 0)
            && (exists|d: Direction| survives(board, Severity::Strict, d)),
        decision(board).tier == Tier::Greedy ==> is_choice(
            board,
            Severity::Strict,
            decision(board).direction,
        ),
        decision(board).tier == Tier::Survival <==> !(select(board) matches Some(p) && p.len() > 0)
            && (forall|d: Direction| !survives(board, Severity::Strict, d)) && (exists|
            d: Direction,
        |
            survives(board, Severity::Loose, d)),
        decision(board).tier == Tier::Survival ==> is_choice(
            board,
            Severity::Loose,
            decision(board).direction,
        ),
        decision(board).tier == Tier::Default <==> !(select(board) matches Some(p) && p.len() > 0)
            && (forall|d: Direction| !survives(board, Severity::Strict, d)) && (forall|
            d: Direction,
        |
            !survives(board, Severity::Loose, d)),
        decision(board).tier == Tier::Default ==> decision(board).direction == Direction::Up,
{
    lemma_one_step(board, Severity::Strict);
    lemma_one_step(board, Severity::Loose);
}

/// A move that the optimal or the greedy rung decides on leads onto a cell
/// that passes the strict check.
pub proof fn lemma_strict_safety(board: Snapshot)
    ensures
        decision(board).tier == Tier::Optimal || decision(board).tier == Tier::Greedy
            ==> !board.strict_grid().blocked(step(board.head()@, decision(board).direction)),
{
    lemma_one_step(board, Severity::Strict);
    if decision(board).tier == Tier::Optimal {
        lemma_select_upto(board, board.foods.len() as int);
        let p = select(board)->Some_0;
        lemma_admits_first(board.strict_grid(), board.head()@, p);
    }
}

/// The distance from `pos` to the nearest of `foods`.
pub fn calculate_distance(pos: &Position, foods: &Vec<Position>) -> (r: i64)
    ensures
        r == nearest_food(pos@, foods@),
{
    let mut min_distance: i64 = i64::MAX;
    let mut i: usize = 0;
    while i < foods.len()
        invariant
            i <= foods.len(),
            min_distance == nearest_food(pos@, foods@.take(i as int)),
        decreases foods.len() - i,
    {
        let distance: i64 = pos.distance(&foods[i]);
        assert(foods@.take(i + 1).drop_last() =~= foods@.take(i as int));
        if distance < min_distance {
            min_distance = distance;
        }
        i += 1;
    }
    assert(foods@.take(foods@.len() as int) =~= foods@);
    min_distance
}

/// The goal selector: searches a way from the agent's head to each food
/// cell in turn, under the strict obstacle model, and keeps the shortest,
/// the first of those that are as short.
pub fn find_astar_path(board: &Board) -> (r: Option<Vec<Direction>>)
    requires
        board.wf(),
    ensures
        match r {
            Some(p) => select(board@) == Some(p@),
            None => select(board@) is None,
        },
        match r {
            Some(p) => {
                &&& exists|i: int|
                    0 <= i < board@.foods.len() && #[trigger] board@.strict_grid().connects(
                        board@.head()@,
                        board@.foods[i]@,
                        p@,
                    )
                &&& forall|i: int, q: Seq<Direction>|
                    0 <= i < board@.foods.len() && #[trigger] board@.strict_grid().connects(
                        board@.head()@,
                        board@.foods[i]@,
                        q,
                    ) ==> p@.len() <= q.len()
            },
            None => forall|i: int|
                0 <= i < board@.foods.len() ==> !#[trigger] board@.strict_grid().reachable(
                    board@.head()@,
                    board@.foods[i]@,
                ),
        },
        r is None <==> forall|i: int|
            0 <= i < board@.foods.len() ==> !#[trigger] board@.strict_grid().reachable(
                board@.head()@,
                board@.foods[i]@,
            ),
{
    let foods = board.get_foods();
    let head: Position = *board.get_my_snake().get_head();
    let mut shortest: Option<Vec<Direction>> = None;
    let mut i: usize = 0;
    while i < foods.len()
        invariant
            board.wf(),
            foods@ == board@.foods,
            head == board@.head(),
            i <= foods.len(),
            match shortest {
                Some(p) => select_upto(board@, i as int) == Some(p@),
                None => select_upto(board@, i as int) is None,
            },
        decreases foods.len() - i,
    {
        let found = search(board, Severity::Strict, &head, &foods[i]);
        match found {
            Some(p) => {
                let shorter: bool = match &shortest {
                    Some(b) => p.len() < b.len(),
                    None => true,
                };
                if shorter {
                    shortest = Some(p);
                }
            },
            None => {},
        }
        i += 1;
    }
    proof {
        lemma_select_upto(board@, board@.foods.len() as int);
        lemma_select_none(board@);
    }
    shortest
}

/// Considers the move `d` on a one-step rung: it replaces the best move so
/// far if the cell it leads to passes the check and scores strictly lower.
fn consider(
    board: &Board,
    severity: Severity,
    best: Option<(Direction, i64)>,
    d: Direction,
) -> (r: Option<(Direction, i64)>)
    requires
        board.wf(),
        best matches Some(b) ==> b.1 == score(board@, severity, target(board@, b.0)),
    ensures
        r matches Some(b) ==> b.1 == score(board@, severity, target(board@, b.0)),
        match r {
            Some(b) => prefer(
                board@,
                severity,
                match best {
                    Some(o) => Some(o.0),
                    None => None,
                },
                d,
            ) == Some(b.0),
            None => prefer(
                board@,
                severity,
                match best {
                    Some(o) => Some(o.0),
                    None => None,
                },
                d,
            ) is None,
        },
{
    let head: Position = *board.get_my_snake().get_head();
    match head.neighbor(d) {
        Some(pos) => {
            if board.blocked(severity, &pos) {
                best
            } else {
                let value: i64 = match severity {
                    Severity::Strict => calculate_distance(&pos, board.get_foods()),
                    Severity::Loose => {
                        let span: i64 = board.get_size() as i64 + 1;
                        let x: i64 = 2 * (pos.get_x() as i64);
                        let y: i64 = 2 * (pos.get_y() as i64);
                        let dx: i64 = if span <= x {
                            x - span
                        } else {
                            span - x
                        };
                        let dy: i64 = if span <= y {
                            y - span
                        } else {
                            span - y
                        };
                        dx + dy
                    },
                };
                match best {
                    Some(b) => if value < b.1 {
                        Some((d, value))
                    } else {
                        best
                    },
                    None => Some((d, value)),
                }
            }
        },
        None => best,
    }
}

/// A one-step rung of the ladder. Each of the four moves is tried in the
/// order Up, Down, Left, Right; a move whose cell fails the check of the
/// given severity is discarded; of the others the one with the lowest score
/// is chosen, the first of those that score as low. Under the strict check
/// the score is the distance to the nearest food, under the loose check the
/// distance to the centre of the board, the point in the middle of the
/// coordinates 1 to the side on both axes.
pub fn choose_step(board: &Board, severity: Severity) -> (r: Option<Direction>)
    requires
        board.wf(),
    ensures
        r == one_step(board@, severity),
        match r {
            Some(d) => is_choice(board@, severity, d),
            None => forall|e: Direction| !#[trigger] survives(board@, severity, e),
        },
{
    let a = consider(board, severity, None, Direction::Up);
    let b = consider(board, severity, a, Direction::Down);
    let c = consider(board, severity, b, Direction::Left);
    let d = consider(board, severity, c, Direction::Right);
    proof {
        lemma_one_step(board@, severity);
    }
    match d {
        Some(m) => Some(m.0),
        None => None,
    }
}

/// Decides the next move on `board`. The rungs are tried in order and the
/// first that yields a move decides: the first move of the goal selector's
/// way; else the greedy one-step move under the strict check; else the
/// survival one-step move under the loose check; else Up.
pub fn decide(board: &Board) -> (r: Decision)
    requires
        board.wf(),
    ensures
        r == decision(board@),
        r.tier == Tier::Optimal || r.tier == Tier::Greedy ==> !board@.strict_grid().blocked(
            step(board@.head()@, r.direction),
        ),
{
    proof {
        lemma_strict_safety(board@);
    }
    let path = find_astar_path(board);
    match path {
        Some(p) => {
            if p.len() > 0 {
                return Decision { tier: Tier::Optimal, direction: p[0] };
            }
        },
        None => {},
    }
    match choose_step(board, Severity::Strict) {
        Some(d) => Decision { tier: Tier::Greedy, direction: d },
        None => match choose_step(board, Severity::Loose) {
            Some(d) => Decision { tier: Tier::Survival, direction: d },
            None => Decision { tier: Tier::Default, direction: Direction::Up },
        },
    }
}

} // verus!
