//! The search as a state machine over mathematical values: what the engine
//! computes, step by step, and why the stepping ends.

use crate::grid::{heading, lemma_free_finite, manhattan, step, Cell, Direction, Grid};
use vstd::prelude::*;
use vstd::set_lib::lemma_len_subset;

verus! {

/// One search: where it may go, where it begins and where it is to end.
pub struct Task {
    pub grid: Grid,
    pub start: Cell,
    pub goal: Cell,
}

/// A node of the search tree: a cell, the moves made to reach it, the
/// estimate of the moves still needed, and the node it was reached from.
pub struct NodeView {
    pub cell: Cell,
    pub g: int,
    pub h: int,
    pub parent: Option<int>,
}

impl NodeView {
    /// The priority of the node: moves made plus moves estimated.
    pub open spec fn f(self) -> int {
        self.g + self.h
    }
}

/// The state of a search between two expansions.
pub struct SearchState {
    /// Every node made so far, in the order of making.
    pub nodes: Seq<NodeView>,
    /// The frontier: indices into `nodes` of the nodes not yet taken out, in
    /// the order in which they were put in.
    pub open: Seq<int>,
    /// The cells of the nodes taken out so far.
    pub closed: Set<Cell>,
}

impl SearchState {
    /// The state in which a search begins: the start node alone, on the
    /// frontier.
    pub open spec fn initial(task: Task) -> SearchState {
        SearchState {
            nodes: seq![
                NodeView {
                    cell: task.start,
                    g: 0,
                    h: manhattan(task.start, task.goal),
                    parent: None,
                },
            ],
            open: seq![0int],
            closed: Set::empty(),
        }
    }

    /// Whether every frontier entry names a node.
    pub open spec fn indexed(self) -> bool {
        forall|k: int| 0 <= k < self.open.len() ==> 0 <= #[trigger] self.open[k] < self.nodes.len()
    }

    /// The priority of the `k`-th frontier entry.
    pub open spec fn f_at(self, k: int) -> int {
        self.nodes[self.open[k]].f()
    }

    /// Among the first `n` frontier entries, the place of the one that is
    /// taken out first: the lowest priority value wins, and among equals the
    /// one put in last.
    pub open spec fn best_upto(self, n: int) -> int
        decreases n,
    {
        if n <= 1 {
            0
        } else {
            let b = self.best_upto(n - 1);
            if self.f_at(n - 1) <= self.f_at(b) {
                n - 1
            } else {
                b
            }
        }
    }

    /// The place on the frontier of the entry that is taken out next.
    pub open spec fn pick(self) -> int {
        self.best_upto(self.open.len() as int)
    }

    /// The node that is taken out next.
    pub open spec fn current(self) -> int {
        self.open[self.pick()]
    }

    /// The state after the next node has left the frontier and its cell has
    /// joined the closed set.
    pub open spec fn pop(self) -> SearchState {
        SearchState {
            nodes: self.nodes,
            open: self.open.remove(self.pick()),
            closed: self.closed.insert(self.nodes[self.current()].cell),
        }
    }

    /// The state after the neighbour of node `parent` in direction `d` has
    /// been considered: it joins the frontier unless it is blocked or closed.
    pub open spec fn push_child(self, task: Task, parent: int, d: Direction) -> SearchState {
        let from = self.nodes[parent];
        let c = step(from.cell, d);
        if task.grid.blocked(c) || self.closed.contains(c) {
            self
        } else {
            SearchState {
                nodes: self.nodes.push(
                    NodeView {
                        cell: c,
                        g: from.g + 1,
                        h: manhattan(c, task.goal),
                        parent: Some(parent),
                    },
                ),
                open: self.open.push(self.nodes.len() as int),
                closed: self.closed,
            }
        }
    }

    /// One expansion: the next node is taken out, its cell is closed, and its
    /// four neighbours are considered in the order Up, Down, Left, Right.
    pub open spec fn expand(self, task: Task) -> SearchState {
        let i = self.current();
        self.pop().push_child(task, i, Direction::Up).push_child(task, i, Direction::Down).push_child(
            task,
            i,
            Direction::Left,
        ).push_child(task, i, Direction::Right)
    }
}

/// The moves that lead from the root of the tree to node `i`, recovered from
/// the cells of each node and its parent. A node that is not one move away
/// from its parent adds no move; the chain ends at a node without a parent, or
/// at one whose parent is not an earlier node.
pub open spec fn route(nodes: Seq<NodeView>, i: int) -> Seq<Direction>
    decreases i,
{
    match nodes[i].parent {
        Some(j) => if 0 <= j < i {
            match heading(nodes[j].cell, nodes[i].cell) {
                Some(d) => route(nodes, j).push(d),
                None => route(nodes, j),
            }
        } else {
            Seq::empty()
        },
        None => Seq::empty(),
    }
}

/// The bound on the expansions that one frontier entry can still cause
/// while `k` cells remain to be closed.
pub open spec fn weight(k: nat) -> nat
    decreases k,
{
    if k == 0 {
        1
    } else {
        4 * weight((k - 1) as nat) + 1
    }
}

/// The cells that may be entered and are not closed yet.
pub open spec fn unexplored(grid: Grid, closed: Set<Cell>) -> Set<Cell> {
    Set::new(|c: Cell| !grid.blocked(c) && !closed.contains(c))
}

/// The weight of a frontier entry at `cell`: an entry whose cell is still to
/// be closed uses up that cell when it is taken out; any other entry does
/// not, and so may cause more.
pub open spec fn entry_weight(cell: Cell, u: Set<Cell>) -> nat {
    if u.contains(cell) {
        weight(u.len())
    } else {
        weight(u.len() + 1)
    }
}

/// The summed weight of the frontier entries `open`.
pub open spec fn load(open: Seq<int>, nodes: Seq<NodeView>, u: Set<Cell>) -> nat
    decreases open.len(),
{
    if open.len() == 0 {
        0
    } else {
        load(open.drop_last(), nodes, u) + entry_weight(nodes[open.last()].cell, u)
    }
}

/// What every expansion lowers: the summed weight of the frontier.
pub open spec fn measure(s: SearchState, grid: Grid) -> nat {
    load(s.open, s.nodes, unexplored(grid, s.closed))
}

/// The outcome of the search that continues from state `s`: the route to the
/// first node taken out at the goal, or `None` once the frontier is empty.
pub open spec fn run(s: SearchState, task: Task) -> Option<Seq<Direction>>
    decreases measure(s, task.grid),
    when s.indexed()
    via run_decreases
{
    if s.open.len() == 0 {
        None
    } else if s.nodes[s.current()].cell == task.goal {
        Some(route(s.nodes, s.current()))
    } else {
        run(s.expand(task), task)
    }
}

/// The outcome of the search for a way from `task.start` to `task.goal`.
pub open spec fn astar(task: Task) -> Option<Seq<Direction>> {
    run(SearchState::initial(task), task)
}

#[via_fn]
proof fn run_decreases(s: SearchState, task: Task) {
    if s.open.len() != 0 {
        lemma_expand_decreases(s, task);
    }
}

proof fn lemma_weight_mono(a: nat, b: nat)
    requires
        a <= b,
    ensures
        weight(a) <= weight(b),
    decreases b,
{
    if a < b {
        lemma_weight_mono(a, (b - 1) as nat);
    }
}

/// The place that is picked is on the frontier, and no entry has a lower
/// priority value; of the entries put in after it, each has a higher one.
pub proof fn lemma_best_upto(s: SearchState, n: int)
    requires
        1 <= n <= s.open.len(),
    ensures
        0 <= s.best_upto(n) < n,
        forall|k: int| 0 <= k < n ==> s.f_at(s.best_upto(n)) <= #[trigger] s.f_at(k),
        forall|k: int| s.best_upto(n) < k < n ==> s.f_at(s.best_upto(n)) < #[trigger] s.f_at(k),
    decreases n,
{
    if n > 1 {
        lemma_best_upto(s, n - 1);
    }
}

proof fn lemma_load_remove(open: Seq<int>, nodes: Seq<NodeView>, u: Set<Cell>, k: int)
    requires
        0 <= k < open.len(),
    ensures
        load(open.remove(k), nodes, u) + entry_weight(nodes[open[k]].cell, u) == load(
            open,
            nodes,
            u,
        ),
    decreases open.len(),
{
    if k == open.len() - 1 {
        assert(open.remove(k) =~= open.drop_last());
    } else {
        lemma_load_remove(open.drop_last(), nodes, u, k);
        assert(open.remove(k).drop_last() =~= open.drop_last().remove(k));
        assert(open.remove(k).last() == open.last());
    }
}

proof fn lemma_entry_weight_shrink(cell: Cell, u: Set<Cell>, v: Set<Cell>)
    requires
        u.finite(),
        v.subset_of(u),
    ensures
        entry_weight(cell, v) <= entry_weight(cell, u),
{
    lemma_len_subset(v, u);
    if v.contains(cell) {
        lemma_weight_mono(v.len(), u.len());
    } else if u.contains(cell) {
        assert(v.subset_of(u.remove(cell)));
        lemma_len_subset(v, u.remove(cell));
        lemma_weight_mono(v.len() + 1, u.len());
    } else {
        lemma_weight_mono(v.len() + 1, u.len() + 1);
    }
}

proof fn lemma_load_shrink(open: Seq<int>, nodes: Seq<NodeView>, u: Set<Cell>, v: Set<Cell>)
    requires
        u.finite(),
        v.subset_of(u),
    ensures
        load(open, nodes, v) <= load(open, nodes, u),
    decreases open.len(),
{
    if open.len() > 0 {
        lemma_load_shrink(open.drop_last(), nodes, u, v);
        lemma_entry_weight_shrink(nodes[open.last()].cell, u, v);
    }
}

proof fn lemma_load_more_nodes(open: Seq<int>, nodes: Seq<NodeView>, n: NodeView, u: Set<Cell>)
    requires
        forall|k: int| 0 <= k < open.len() ==> 0 <= #[trigger] open[k] < nodes.len(),
    ensures
        load(open, nodes.push(n), u) == load(open, nodes, u),
    decreases open.len(),
{
    if open.len() > 0 {
        lemma_load_more_nodes(open.drop_last(), nodes, n, u);
        assert(nodes.push(n)[open.last()] == nodes[open.last()]);
    }
}

/// Considering one neighbour keeps the closed set and the frontier's
/// indexing, and adds at most the weight of one entry at a cell still to be
/// closed.
pub proof fn lemma_push_child_measure(s: SearchState, task: Task, parent: int, d: Direction)
    requires
        s.indexed(),
    ensures
        s.push_child(task, parent, d).indexed(),
        s.push_child(task, parent, d).closed == s.closed,
        measure(s.push_child(task, parent, d), task.grid) <= measure(s, task.grid) + weight(
            unexplored(task.grid, s.closed).len(),
        ),
{
    let t = s.push_child(task, parent, d);
    let c = step(s.nodes[parent].cell, d);
    let u = unexplored(task.grid, s.closed);
    if !(task.grid.blocked(c) || s.closed.contains(c)) {
        let n = t.nodes.last();
        assert(t.open.drop_last() =~= s.open);
        lemma_load_more_nodes(s.open, s.nodes, n, u);
        assert(u.contains(c));
        assert forall|k: int| 0 <= k < t.open.len() implies 0 <= #[trigger] t.open[k]
            < t.nodes.len() by {
            if k < s.open.len() {
                assert(t.open[k] == s.open[k]);
            }
        }
    }
}

/// Every expansion lowers the measure.
pub proof fn lemma_expand_decreases(s: SearchState, task: Task)
    requires
        s.indexed(),
        s.open.len() > 0,
    ensures
        s.expand(task).indexed(),
        measure(s.expand(task), task.grid) < measure(s, task.grid),
{
    let grid = task.grid;
    let i = s.current();
    let p = s.nodes[i].cell;
    let u = unexplored(grid, s.closed);
    let s0 = s.pop();
    let u0 = unexplored(grid, s0.closed);
    lemma_best_upto(s, s.open.len() as int);
    lemma_free_finite(grid);
    assert(u.subset_of(grid.free()));
    lemma_len_subset(u, grid.free());
    assert(u0 =~= u.remove(p));
    lemma_load_remove(s.open, s.nodes, u, s.pick());
    lemma_load_shrink(s0.open, s.nodes, u, u0);
    assert(s0.indexed());
    let s1 = s0.push_child(task, i, Direction::Up);
    lemma_push_child_measure(s0, task, i, Direction::Up);
    let s2 = s1.push_child(task, i, Direction::Down);
    lemma_push_child_measure(s1, task, i, Direction::Down);
    let s3 = s2.push_child(task, i, Direction::Left);
    lemma_push_child_measure(s2, task, i, Direction::Left);
    let s4 = s3.push_child(task, i, Direction::Right);
    lemma_push_child_measure(s3, task, i, Direction::Right);
    assert(s4 == s.expand(task));
    assert(measure(s4, grid) <= measure(s0, grid) + 4 * weight(u0.len()));
    assert(measure(s0, grid) + entry_weight(p, u) <= measure(s, grid));
    if u.contains(p) {
        assert(u.len() == u0.len() + 1);
        assert(entry_weight(p, u) == 4 * weight(u0.len()) + 1);
    } else {
        assert(u0 =~= u);
        assert(entry_weight(p, u) == weight(u.len() + 1));
        assert(weight(u.len() + 1) == 4 * weight(u.len()) + 1);
    }
}

} // verus!
