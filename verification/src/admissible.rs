//! Why the search is right: what holds of every state it passes through, and
//! what follows for its outcome.

use crate::grid::{lemma_admits_push, lemma_heading_some, lemma_heading_step, lemma_manhattan_step};
use crate::grid::{adjacent, heading, lemma_free_finite, manhattan, step, walk, Cell, Direction};
use crate::model::{astar, lemma_best_upto, lemma_expand_decreases, measure, route, run};
use crate::model::{NodeView, SearchState, Task};
use vstd::prelude::*;
use vstd::set_lib::lemma_len_subset;

verus! {

/// Whether the frontier holds a node at `cell` that was reached in `g` moves
/// or fewer.
pub open spec fn holds(s: SearchState, cell: Cell, g: int) -> bool {
    exists|k: int| holds_at(s, cell, g, k)
}

/// Whether the `k`-th frontier entry is a node at `cell` that was reached in
/// `g` moves or fewer.
pub open spec fn holds_at(s: SearchState, cell: Cell, g: int, k: int) -> bool {
    0 <= k < s.open.len() && s.nodes[s.open[k]].cell == cell && s.nodes[s.open[k]].g <= g
}

/// Whether `q` is a way from the start that has just left the closed set: it
/// ends on a cell that is not closed, and it is empty or its last move began
/// on a closed cell.
pub open spec fn edge(s: SearchState, task: Task, q: Seq<Direction>) -> bool {
    &&& task.grid.admits(task.start, q)
    &&& !s.closed.contains(walk(task.start, q))
    &&& (q.len() == 0 || s.closed.contains(walk(task.start, q.drop_last())))
}

/// Whether node `i` is what the search makes: the root at the start, or the
/// child of an earlier node on a closed cell, one move away from it and one
/// move longer, on a cell that may be entered. No node was reached in more
/// moves than there are closed cells besides its own.
pub open spec fn linked(s: SearchState, task: Task, i: int) -> bool {
    let n = s.nodes[i];
    &&& n.h == manhattan(n.cell, task.goal)
    &&& 0 <= n.g <= s.closed.remove(n.cell).len()
    &&& if i == 0 {
        n.cell == task.start && n.g == 0 && n.parent is None
    } else {
        &&& n.parent matches Some(j)
        &&& 0 <= j < i
        &&& !task.grid.blocked(n.cell)
        &&& s.closed.contains(s.nodes[j].cell)
        &&& n.g == s.nodes[j].g + 1
        &&& adjacent(s.nodes[j].cell, n.cell)
    }
}

/// What holds of every state that a search passes through.
pub open spec fn inv(s: SearchState, task: Task) -> bool {
    &&& s.indexed()
    &&& s.nodes.len() >= 1
    &&& forall|i: int| 0 <= i < s.nodes.len() ==> #[trigger] linked(s, task, i)
    &&& s.closed.finite()
    &&& !s.closed.contains(task.goal)
    &&& forall|c: Cell| #[trigger]
        s.closed.contains(c) ==> c == task.start || !task.grid.blocked(c)
    &&& forall|q: Seq<Direction>| #[trigger]
        edge(s, task, q) ==> holds(s, walk(task.start, q), q.len() as int)
}

/// A search begins in a state of which the invariant holds.
pub proof fn lemma_initial_inv(task: Task)
    ensures
        inv(SearchState::initial(task), task),
{
    let s = SearchState::initial(task);
    assert(s.closed.remove(task.start) =~= Set::<Cell>::empty());
    assert(linked(s, task, 0));
    assert forall|q: Seq<Direction>| #[trigger] edge(s, task, q) implies holds(
        s,
        walk(task.start, q),
        q.len() as int,
    ) by {
        assert(q.len() == 0);
        assert(holds_at(s, walk(task.start, q), q.len() as int, 0));
    }
}

/// The route to a node is a way from the start to the node's cell, of as
/// many moves as the node records.
pub proof fn lemma_route(s: SearchState, task: Task, i: int)
    requires
        inv(s, task),
        0 <= i < s.nodes.len(),
    ensures
        task.grid.admits(task.start, route(s.nodes, i)),
        walk(task.start, route(s.nodes, i)) == s.nodes[i].cell,
        route(s.nodes, i).len() == s.nodes[i].g,
    decreases i,
{
    assert(linked(s, task, i));
    if i > 0 {
        let j = s.nodes[i].parent->Some_0;
        lemma_route(s, task, j);
        let d = heading(s.nodes[j].cell, s.nodes[i].cell)->Some_0;
        lemma_heading_some(s.nodes[j].cell, s.nodes[i].cell);
        assert(route(s.nodes, i) == route(s.nodes, j).push(d));
        lemma_admits_push(task.grid, task.start, route(s.nodes, j), d);
    }
}

/// No node lies deeper in the tree than a board of the largest side has
/// cells.
pub proof fn lemma_depth_bound(s: SearchState, task: Task, i: int)
    requires
        inv(s, task),
        0 <= i < s.nodes.len(),
        task.grid.size <= i32::MAX,
    ensures
        0 <= s.nodes[i].g <= 0x4000_0000_0000_0000,
{
    let c = s.nodes[i].cell;
    let free = task.grid.free();
    let n = task.grid.size;
    assert(linked(s, task, i));
    lemma_len_subset(s.closed.remove(c), s.closed);
    lemma_free_finite(task.grid);
    assert(s.closed.subset_of(free.insert(task.start)));
    lemma_len_subset(s.closed, free.insert(task.start));
    if n >= 0 {
        assert(n * n <= 0x3FFF_FFFF_0000_0001) by (nonlinear_arith)
            requires
                0 <= n <= 0x7FFF_FFFF,
        ;
    }
}

/// For every way from the start that ends off the closed set, the frontier
/// holds a node whose priority value is no higher than the way's length plus
/// the estimate at its end.
pub proof fn lemma_frontier_bound(s: SearchState, task: Task, q: Seq<Direction>) -> (k: int)
    requires
        inv(s, task),
        task.grid.admits(task.start, q),
        !s.closed.contains(walk(task.start, q)),
    ensures
        0 <= k < s.open.len(),
        s.f_at(k) <= q.len() + manhattan(walk(task.start, q), task.goal),
    decreases q.len(),
{
    if edge(s, task, q) {
        let k = choose|k: int| holds_at(s, walk(task.start, q), q.len() as int, k);
        assert(linked(s, task, s.open[k]));
        k
    } else {
        let k = lemma_frontier_bound(s, task, q.drop_last());
        lemma_manhattan_step(walk(task.start, q.drop_last()), q.last(), task.goal);
        k
    }
}

/// The node that is taken out next was reached in no more moves than any way
/// from the start to its cell has, if that cell is not closed yet.
pub proof fn lemma_pop_optimal(s: SearchState, task: Task, q: Seq<Direction>)
    requires
        inv(s, task),
        s.open.len() > 0,
        task.grid.admits(task.start, q),
        walk(task.start, q) == s.nodes[s.current()].cell,
        !s.closed.contains(s.nodes[s.current()].cell),
    ensures
        s.nodes[s.current()].g <= q.len(),
{
    let k = lemma_frontier_bound(s, task, q);
    lemma_best_upto(s, s.open.len() as int);
    assert(s.f_at(s.pick()) <= s.f_at(k));
    assert(linked(s, task, s.current()));
}

/// What holds between taking a node out and having considered all four of its
/// neighbours.
pub open spec fn staged(t: SearchState, task: Task, i: int) -> bool {
    &&& t.indexed()
    &&& 0 <= i < t.nodes.len()
    &&& forall|j: int| 0 <= j < t.nodes.len() ==> #[trigger] linked(t, task, j)
    &&& t.closed.finite()
    &&& t.closed.contains(t.nodes[i].cell)
    &&& t.nodes[i].g + 1 <= t.closed.len()
}

proof fn lemma_route_more_nodes(nodes: Seq<NodeView>, n: NodeView, j: int)
    requires
        0 <= j < nodes.len(),
    ensures
        route(nodes.push(n), j) == route(nodes, j),
    decreases j,
{
    match nodes[j].parent {
        Some(p) => {
            if 0 <= p < j {
                lemma_route_more_nodes(nodes, n, p);
            }
        },
        None => {},
    }
}

/// Considering one neighbour keeps what holds between the taking out and the
/// end of the expansion, keeps every frontier entry where it is, and puts the
/// neighbour on the frontier if it may be entered and is not closed.
proof fn lemma_push_child_staged(t: SearchState, task: Task, i: int, d: Direction)
    requires
        staged(t, task, i),
    ensures
        staged(t.push_child(task, i, d), task, i),
        t.push_child(task, i, d).closed == t.closed,
        t.push_child(task, i, d).nodes[i] == t.nodes[i],
        forall|cell: Cell, g: int| #[trigger]
            holds(t, cell, g) ==> holds(t.push_child(task, i, d), cell, g),
        !task.grid.blocked(step(t.nodes[i].cell, d)) && !t.closed.contains(
            step(t.nodes[i].cell, d),
        ) ==> holds(t.push_child(task, i, d), step(t.nodes[i].cell, d), t.nodes[i].g + 1),
{
    let t2 = t.push_child(task, i, d);
    let c = step(t.nodes[i].cell, d);
    if !(task.grid.blocked(c) || t.closed.contains(c)) {
        let n = t2.nodes.last();
        let m = t.nodes.len() as int;
        assert forall|k: int| 0 <= k < t2.open.len() implies 0 <= #[trigger] t2.open[k]
            < t2.nodes.len() by {
            if k < t.open.len() {
                assert(t2.open[k] == t.open[k]);
            }
        }
        assert forall|j: int| 0 <= j < t2.nodes.len() implies #[trigger] linked(t2, task, j) by {
            if j < m {
                assert(linked(t, task, j));
                lemma_route_more_nodes(t.nodes, n, j);
            } else {
                assert(t2.closed.remove(c) =~= t2.closed);
                lemma_route_more_nodes(t.nodes, n, i);
                lemma_heading_step(t.nodes[i].cell, d);
                assert(linked(t, task, i));
            }
        }
        assert forall|cell: Cell, g: int| #[trigger] holds(t, cell, g) implies holds(
            t2,
            cell,
            g,
        ) by {
            let k = choose|k: int| holds_at(t, cell, g, k);
            assert(t2.open[k] == t.open[k]);
            assert(holds_at(t2, cell, g, k));
        }
        assert(holds_at(t2, c, t.nodes[i].g + 1, t.open.len() as int));
    }
}

/// Taking the next node out leaves a state of which the staging facts hold,
/// and keeps on the frontier every node at another cell.
proof fn lemma_pop_staged(s: SearchState, task: Task)
    requires
        inv(s, task),
        s.open.len() > 0,
    ensures
        staged(s.pop(), task, s.current()),
        forall|cell: Cell, g: int|
            cell != s.nodes[s.current()].cell && #[trigger] holds(s, cell, g) ==> holds(
                s.pop(),
                cell,
                g,
            ),
{
    let t = s.pop();
    let i = s.current();
    let p = s.nodes[i].cell;
    let at = s.pick();
    lemma_best_upto(s, s.open.len() as int);
    assert(linked(s, task, i));
    assert forall|j: int| 0 <= j < t.nodes.len() implies #[trigger] linked(t, task, j) by {
        assert(linked(s, task, j));
        let c = s.nodes[j].cell;
        assert(s.closed.remove(c).subset_of(t.closed.remove(c)));
        lemma_len_subset(s.closed.remove(c), t.closed.remove(c));
    }
    assert(t.closed =~= s.closed.remove(p).insert(p));
    assert forall|cell: Cell, g: int| cell != p && #[trigger] holds(s, cell, g) implies holds(
        t,
        cell,
        g,
    ) by {
        let k = choose|k: int| holds_at(s, cell, g, k);
        if k < at {
            assert(t.open[k] == s.open[k]);
            assert(holds_at(t, cell, g, k));
        } else {
            assert(k != at);
            assert(t.open[k - 1] == s.open[k]);
            assert(holds_at(t, cell, g, k - 1));
        }
    }
}

/// An expansion that does not take out a node at the goal leads from a state
/// of which the invariant holds to another such state.
pub proof fn lemma_expand_inv(s: SearchState, task: Task)
    requires
        inv(s, task),
        s.open.len() > 0,
        s.nodes[s.current()].cell != task.goal,
    ensures
        inv(s.expand(task), task),
{
    let i = s.current();
    let p = s.nodes[i].cell;
    let g = s.nodes[i].g;
    let s0 = s.pop();
    lemma_best_upto(s, s.open.len() as int);
    lemma_pop_staged(s, task);
    let s1 = s0.push_child(task, i, Direction::Up);
    lemma_push_child_staged(s0, task, i, Direction::Up);
    let s2 = s1.push_child(task, i, Direction::Down);
    lemma_push_child_staged(s1, task, i, Direction::Down);
    let s3 = s2.push_child(task, i, Direction::Left);
    lemma_push_child_staged(s2, task, i, Direction::Left);
    let s4 = s3.push_child(task, i, Direction::Right);
    lemma_push_child_staged(s3, task, i, Direction::Right);
    assert(s4 == s.expand(task));
    assert(linked(s, task, i));
    assert forall|q: Seq<Direction>| #[trigger] edge(s4, task, q) implies holds(
        s4,
        walk(task.start, q),
        q.len() as int,
    ) by {
        let e = walk(task.start, q);
        if q.len() == 0 || s.closed.contains(walk(task.start, q.drop_last())) {
            assert(edge(s, task, q));
            assert(holds(s, e, q.len() as int));
            assert(holds(s0, e, q.len() as int));
            assert(holds(s1, e, q.len() as int));
            assert(holds(s2, e, q.len() as int));
            assert(holds(s3, e, q.len() as int));
        } else {
            let d = q.last();
            assert(walk(task.start, q.drop_last()) == p);
            lemma_pop_optimal(s, task, q.drop_last());
            assert(e == step(p, d));
            let g1 = g + 1;
            match d {
                Direction::Up => {
                    assert(holds(s1, e, g + 1));
                    assert(holds(s2, e, g + 1));
                    assert(holds(s3, e, g + 1));
                },
                Direction::Down => {
                    assert(holds(s2, e, g + 1));
                    assert(holds(s3, e, g + 1));
                },
                Direction::Left => {
                    assert(holds(s3, e, g + 1));
                },
                Direction::Right => {},
            }
            assert(holds(s4, e, g + 1));
            let k = choose|k: int| holds_at(s4, e, g1, k);
            assert(holds_at(s4, e, q.len() as int, k));
        }
    }
}

/// A search that continues from a state of which the invariant holds ends
/// with a shortest way from the start to the goal, or with `None` where no
/// way exists.
pub proof fn lemma_run_admissible(s: SearchState, task: Task)
    requires
        inv(s, task),
    ensures
        match run(s, task) {
            Some(p) => {
                &&& task.grid.connects(task.start, task.goal, p)
                &&& forall|q: Seq<Direction>| #[trigger]
                    task.grid.connects(task.start, task.goal, q) ==> p.len() <= q.len()
            },
            None => !task.grid.reachable(task.start, task.goal),
        },
    decreases measure(s, task.grid),
{
    if s.open.len() == 0 {
        assert forall|q: Seq<Direction>|
            !(#[trigger] task.grid.connects(task.start, task.goal, q)) by {
            if task.grid.connects(task.start, task.goal, q) {
                let k = lemma_frontier_bound(s, task, q);
            }
        }
    } else if s.nodes[s.current()].cell == task.goal {
        lemma_best_upto(s, s.open.len() as int);
        lemma_route(s, task, s.current());
        assert forall|q: Seq<Direction>| #[trigger]
            task.grid.connects(task.start, task.goal, q) implies route(s.nodes, s.current()).len()
            <= q.len() by {
            lemma_pop_optimal(s, task, q);
        }
    } else {
        lemma_expand_inv(s, task);
        lemma_expand_decreases(s, task);
        lemma_run_admissible(s.expand(task), task);
    }
}

/// The search is admissible and complete. Where the goal can be reached, the
/// outcome is a way from the start to the goal through cells that may be
/// entered, and no such way is shorter. Where it cannot, the outcome is
/// `None`.
pub proof fn lemma_astar_admissible(task: Task)
    ensures
        match astar(task) {
            Some(p) => {
                &&& task.grid.connects(task.start, task.goal, p)
                &&& forall|q: Seq<Direction>| #[trigger]
                    task.grid.connects(task.start, task.goal, q) ==> p.len() <= q.len()
            },
            None => !task.grid.reachable(task.start, task.goal),
        },
{
    lemma_initial_inv(task);
    lemma_run_admissible(SearchState::initial(task), task);
}

} // verus!
