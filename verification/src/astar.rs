//! The search engine: A* over the four-connected grid, with the Manhattan
//! distance as its estimate.

use crate::admissible::{inv, lemma_astar_admissible, lemma_depth_bound, lemma_expand_inv};
use crate::admissible::lemma_initial_inv;
use crate::board::{Board, Severity, Snapshot};
use crate::grid::{heading, manhattan, representable, Cell, Direction, Position};
use crate::model::{astar, lemma_best_upto, lemma_expand_decreases, measure, route, run};
use crate::model::{NodeView, SearchState, Task};
use std::collections::HashSet;
use vstd::prelude::*;
use vstd::std_specs::hash::group_hash_axioms;

verus! {

/// A node of the search tree. Nodes live in one list; a node names its parent
/// by the parent's place in that list.
#[derive(Clone, Copy, Debug)]
pub struct Node {
    pos: Position,
    g: i64,
    h: i64,
    f: i64,
    parent: Option<usize>,
}

impl View for Node {
    type V = NodeView;

    closed spec fn view(&self) -> NodeView {
        NodeView {
            cell: self.pos@,
            g: self.g as int,
            h: self.h as int,
            parent: match self.parent {
                Some(j) => Some(j as int),
                None => None,
            },
        }
    }
}

impl Node {
    #[verifier::type_invariant]
    spec fn sums(self) -> bool {
        self.f == self.g + self.h
    }

    /// The position of the node.
    pub closed spec fn position(&self) -> Position {
        self.pos
    }

    /// A node at `pos`, reached in `g` moves, with `h` more estimated.
    pub fn new(pos: Position, g: i64, h: i64, parent: Option<usize>) -> (r: Node)
        requires
            i64::MIN <= g + h <= i64::MAX,
        ensures
            r.position() == pos,
            r@.cell == pos@,
            r@.g == g,
            r@.h == h,
            match parent {
                Some(j) => r@.parent == Some(j as int),
                None => r@.parent is None,
            },
    {
        Node { pos, g, h, f: g + h, parent }
    }

    /// The estimate of the moves from `a` to `b`: their Manhattan distance.
    pub fn heuristic(a: &Position, b: &Position) -> (r: i64)
        ensures
            r == manhattan(a@, b@),
            0 <= r <= 0x1_FFFF_FFFE,
    {
        a.distance(b)
    }

    pub fn get_pos(&self) -> (r: &Position)
        ensures
            *r == self.position(),
            r@ == self@.cell,
    {
        &self.pos
    }

    pub fn get_g(&self) -> (r: i64)
        ensures
            r == self@.g,
    {
        self.g
    }

    pub fn get_h(&self) -> (r: i64)
        ensures
            r == self@.h,
    {
        self.h
    }

    pub fn get_f(&self) -> (r: i64)
        ensures
            r == self@.f(),
    {
        proof {
            use_type_invariant(self);
        }
        self.f
    }

    /// The place in the node list of the node from which this one was
    /// reached.
    pub fn get_parent(&self) -> (r: Option<usize>)
        ensures
            match r {
                Some(j) => self@.parent == Some(j as int),
                None => self@.parent is None,
            },
    {
        self.parent
    }
}

/// What a list of nodes stands for.
pub open spec fn views(nodes: Seq<Node>) -> Seq<NodeView> {
    nodes.map_values(|n: Node| n@)
}

/// The search that `search` runs on `board`.
pub open spec fn task_of(
    board: Snapshot,
    severity: Severity,
    start: Position,
    goal: Position,
) -> Task {
    Task { grid: board.grid(severity), start: start@, goal: goal@ }
}

/// The direction that leads from `from` to `to` in one move, if there is one.
pub fn heading_between(from: &Position, to: &Position) -> (r: Option<Direction>)
    ensures
        r == heading(from@, to@),
{
    let fx: i64 = from.x as i64;
    let fy: i64 = from.y as i64;
    let tx: i64 = to.x as i64;
    let ty: i64 = to.y as i64;
    if tx == fx && ty == fy + 1 {
        Some(Direction::Up)
    } else if tx == fx && ty == fy - 1 {
        Some(Direction::Down)
    } else if tx == fx - 1 && ty == fy {
        Some(Direction::Left)
    } else if tx == fx + 1 && ty == fy {
        Some(Direction::Right)
    } else {
        None
    }
}

/// The moves from the root of the tree to node `idx`: the parent links are
/// walked back from the node, the move between each parent and child is
/// recovered from their positions, and the moves are put in forward order.
pub fn reconstruct_path(nodes: &Vec<Node>, idx: usize) -> (path: Vec<Direction>)
    requires
        idx < nodes.len(),
    ensures
        path@ == route(views(nodes@), idx as int),
{
    let ghost nv = views(nodes@);
    let ghost full = route(nv, idx as int);
    let mut rev: Vec<Direction> = Vec::new();
    let mut cur: usize = idx;
    let mut more: bool = true;
    while more
        invariant
            nv == views(nodes@),
            full == route(nv, idx as int),
            cur < nodes.len(),
            route(nv, cur as int).len() + rev.len() == full.len(),
            route(nv, cur as int) == full.take(route(nv, cur as int).len() as int),
            forall|k: int| 0 <= k < rev.len() ==> rev@[k] == full[full.len() - 1 - k],
            !more ==> route(nv, cur as int).len() == 0,
        decreases
                (if more {
                    cur + 1
                } else {
                    0
                }),
    {
        let node = &nodes[cur];
        assert(nv[cur as int] == node@);
        match node.get_parent() {
            Some(j) => {
                if j < cur {
                    let from = &nodes[j];
                    assert(nv[j as int] == from@);
                    let ghost before = route(nv, cur as int);
                    let ghost after = route(nv, j as int);
                    match heading_between(from.get_pos(), node.get_pos()) {
                        Some(d) => {
                            assert(before == after.push(d));
                            assert(after =~= full.take(after.len() as int)) by {
                                assert(after =~= before.take(after.len() as int));
                            }
                            assert(full[after.len() as int] == d) by {
                                assert(before[after.len() as int] == d);
                            }
                            rev.push(d);
                        },
                        None => {},
                    }
                    cur = j;
                } else {
                    more = false;
                }
            },
            None => {
                more = false;
            },
        }
    }
    let mut path: Vec<Direction> = Vec::new();
    let mut k: usize = rev.len();
    while k > 0
        invariant
            k <= rev.len(),
            rev.len() == full.len(),
            path.len() == rev.len() - k,
            forall|m: int| 0 <= m < rev.len() ==> rev@[m] == full[full.len() - 1 - m],
            forall|m: int| 0 <= m < path.len() ==> path@[m] == full[m],
        decreases k,
    {
        k -= 1;
        path.push(rev[k]);
    }
    assert(path@ =~= full);
    path
}

/// The number under which a cell is kept in the closed set: one number for
/// each cell with machine coordinates.
pub open spec fn cell_key(c: Cell) -> int {
    (c.x + 0x8000_0000) * 0x1_0000_0000 + (c.y + 0x8000_0000)
}

/// The cells whose numbers are `keys`.
pub open spec fn closed_cells(keys: Set<u64>) -> Set<Cell> {
    Set::new(|c: Cell| representable(c) && keys.contains(cell_key(c) as u64))
}

fn key_of(p: &Position) -> (k: u64)
    ensures
        k == cell_key(p@),
{
    let a: u64 = (p.x as i64 + 0x8000_0000) as u64;
    let b: u64 = (p.y as i64 + 0x8000_0000) as u64;
    a * 0x1_0000_0000 + b
}

/// The working state of one search.
struct Engine {
    nodes: Vec<Node>,
    open: Vec<usize>,
    closed: HashSet<u64>,
}

impl Engine {
    spec fn state(&self) -> SearchState {
        SearchState {
            nodes: views(self.nodes@),
            open: self.open@.map_values(|i: usize| i as int),
            closed: closed_cells(self.closed@),
        }
    }

    fn new(start: &Position, goal: &Position, Ghost(task): Ghost<Task>) -> (r: Engine)
        requires
            task.start == start@,
            task.goal == goal@,
        ensures
            r.state() == SearchState::initial(task),
    {
        let mut nodes: Vec<Node> = Vec::new();
        nodes.push(Node::new(*start, 0, Node::heuristic(start, goal), None));
        let mut open: Vec<usize> = Vec::new();
        open.push(0);
        let r = Engine { nodes, open, closed: HashSet::new() };
        proof {
            assert(r.state().nodes =~= SearchState::initial(task).nodes);
            assert(r.state().open =~= SearchState::initial(task).open);
            assert(r.state().closed =~= SearchState::initial(task).closed);
        }
        r
    }

    /// The place on the frontier of the entry that leaves it next.
    fn pick(&self) -> (k: usize)
        requires
            self.open.len() > 0,
            self.state().indexed(),
        ensures
            k == self.state().pick(),
            k < self.open.len(),
    {
        let ghost s = self.state();
        assert(s.open[0] == self.open@[0]);
        let first: usize = self.open[0];
        assert(s.nodes[first as int] == self.nodes@[first as int]@);
        let mut best: usize = 0;
        let mut best_f: i64 = self.nodes[first].get_f();
        let mut n: usize = 1;
        while n < self.open.len()
            invariant
                s == self.state(),
                s.indexed(),
                1 <= n <= self.open.len(),
                best < n,
                best == s.best_upto(n as int),
                best_f == s.f_at(best as int),
            decreases self.open.len() - n,
        {
            assert(s.open[n as int] == self.open@[n as int]);
            let i: usize = self.open[n];
            assert(s.nodes[i as int] == self.nodes@[i as int]@);
            let f: i64 = self.nodes[i].get_f();
            if f <= best_f {
                best = n;
                best_f = f;
            }
            n += 1;
        }
        best
    }

    /// Considers the neighbour of node `parent` in direction `d`.
    fn push_child(
        &mut self,
        board: &Board,
        severity: Severity,
        goal: &Position,
        parent: usize,
        d: Direction,
        Ghost(task): Ghost<Task>,
    )
        requires
            board.wf(),
            task.grid == board@.grid(severity),
            task.goal == goal@,
            parent < old(self).nodes.len(),
            0 <= old(self).state().nodes[parent as int].g <= 0x4000_0000_0000_0000,
        ensures
            final(self).state() == old(self).state().push_child(task, parent as int, d),
    {
        broadcast use group_hash_axioms;

        let ghost s = self.state();
        assert(s.nodes[parent as int] == self.nodes@[parent as int]@);
        let from: Position = *self.nodes[parent].get_pos();
        match from.neighbor(d) {
            Some(pos) => {
                let key: u64 = key_of(&pos);
                if !self.closed.contains(&key) && !board.blocked(severity, &pos) {
                    let g: i64 = self.nodes[parent].get_g() + 1;
                    let h: i64 = Node::heuristic(&pos, goal);
                    let child = Node::new(pos, g, h, Some(parent));
                    let at: usize = self.nodes.len();
                    self.nodes.push(child);
                    self.open.push(at);
                    proof {
                        let t = s.push_child(task, parent as int, d);
                        assert(self.state().nodes =~= t.nodes);
                        assert(self.state().open =~= t.open);
                    }
                }
            },
            None => {},
        }
    }
}

/// Searches for a shortest way from `start` to `goal` over the cells that the
/// obstacle model of the given severity lets be entered. The outcome is the
/// sequence of moves, or `None` where the goal cannot be reached.
///
/// Nodes leave the frontier in the order of their priority value, lowest
/// first; among equals the one put in last leaves first. A cell is closed when
/// a node at it leaves the frontier, and no node is made at a closed cell.
pub fn search(board: &Board, severity: Severity, start: &Position, goal: &Position) -> (r: Option<
    Vec<Direction>,
>)
    requires
        board.wf(),
    ensures
        match r {
            Some(p) => astar(task_of(board@, severity, *start, *goal)) == Some(p@),
            None => astar(task_of(board@, severity, *start, *goal)) is None,
        },
        match r {
            Some(p) => {
                &&& board@.grid(severity).connects(start@, goal@, p@)
                &&& forall|q: Seq<Direction>| #[trigger]
                    board@.grid(severity).connects(start@, goal@, q) ==> p@.len() <= q.len()
            },
            None => !board@.grid(severity).reachable(start@, goal@),
        },
{
    broadcast use group_hash_axioms;

    let ghost task = task_of(board@, severity, *start, *goal);
    let mut engine = Engine::new(start, goal, Ghost(task));
    proof {
        lemma_initial_inv(task);
    }
    while engine.open.len() > 0
        invariant
            board.wf(),
            task == task_of(board@, severity, *start, *goal),
            inv(engine.state(), task),
            run(engine.state(), task) == astar(task),
        decreases measure(engine.state(), task.grid),
    {
        let ghost s = engine.state();
        let k: usize = engine.pick();
        proof {
            lemma_best_upto(s, s.open.len() as int);
            lemma_depth_bound(s, task, s.current());
        }
        assert(s.open[k as int] == engine.open@[k as int]);
        let idx: usize = engine.open.remove(k);
        assert(s.nodes[idx as int] == engine.nodes@[idx as int]@);
        let pos: Position = *engine.nodes[idx].get_pos();
        if pos == *goal {
            let path = reconstruct_path(&engine.nodes, idx);
            proof {
                lemma_astar_admissible(task);
            }
            return Some(path);
        }
        let key: u64 = key_of(&pos);
        engine.closed.insert(key);
        proof {
            let t = engine.state();
            assert(t.open =~= s.pop().open);
            assert(t.closed =~= s.pop().closed);
            assert(t == s.pop());
        }
        engine.push_child(board, severity, goal, idx, Direction::Up, Ghost(task));
        engine.push_child(board, severity, goal, idx, Direction::Down, Ghost(task));
        engine.push_child(board, severity, goal, idx, Direction::Left, Ghost(task));
        engine.push_child(board, severity, goal, idx, Direction::Right, Ghost(task));
        proof {
            assert(engine.state() == s.expand(task));
            lemma_expand_inv(s, task);
            lemma_expand_decreases(s, task);
        }
    }
    proof {
        lemma_astar_admissible(task);
    }
    None
}

} // verus!
