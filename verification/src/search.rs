//! The search as a machine on mathematical state.
//!
//! The search keeps a frontier of discovered vertices, each with the rank of
//! the cost of the edge by which it was discovered, a flag per vertex that
//! says whether it was discovered, and the discoverer of each vertex. One
//! turn takes the frontier entry of least rank (the earliest where several
//! are least), stops if its vertex meets the goal, and otherwise discovers
//! the vertex's undiscovered neighbors in list order. This module defines
//! that machine, what it returns, and proves what holds of the result.

use crate::adjacency::{
    attribute_of, first_toward, is_first_toward, leads_to, lemma_first_toward_at,
    lemma_first_toward_exists, Adjacency,
};
use vstd::prelude::*;

verus! {

/// The state of a search between two turns.
pub struct SearchState {
    /// The discovered vertices that wait for their turn, in the order of
    /// their discovery, each with the rank of its discovering edge's cost.
    pub frontier: Seq<(usize, int)>,
    /// For every vertex, whether it was discovered.
    pub visited: Seq<bool>,
    /// For every discovered vertex but the start, its discoverer; every other
    /// vertex stands for itself.
    pub predecessor: Seq<usize>,
}

/// The number of vertices not yet discovered.
pub open spec fn unvisited(visited: Seq<bool>) -> nat
    decreases visited.len(),
{
    if visited.len() == 0 {
        0
    } else {
        unvisited(visited.drop_last()) + if visited.last() {
            0nat
        } else {
            1nat
        }
    }
}

/// Whether `m` is the position of the frontier entry whose turn is next: no
/// entry has a lower rank, and every earlier entry has a higher one.
pub open spec fn is_least(frontier: Seq<(usize, int)>, m: int) -> bool {
    &&& 0 <= m < frontier.len()
    &&& forall|j: int| 0 <= j < frontier.len() ==> frontier[m].1 <= (#[trigger] frontier[j]).1
    &&& forall|j: int| 0 <= j < m ==> frontier[m].1 < (#[trigger] frontier[j]).1
}

/// The position of the frontier entry whose turn is next.
pub open spec fn least(frontier: Seq<(usize, int)>) -> int {
    choose|m: int| is_least(frontier, m)
}

impl SearchState {
    /// The state before the first turn: only `start` is discovered, and it
    /// waits with rank zero.
    pub open spec fn initial(order: nat, start: usize) -> SearchState {
        SearchState {
            frontier: seq![(start, 0int)],
            visited: Seq::new(order, |v: int| v == start),
            predecessor: Seq::new(order, |v: int| v as usize),
        }
    }

    /// A bound on the turns and discoveries still to come.
    pub open spec fn effort(self) -> nat {
        2 * unvisited(self.visited) + self.frontier.len()
    }

    /// The state with the frontier entry at `m` taken out.
    pub open spec fn popped(self, m: int) -> SearchState {
        SearchState {
            frontier: self.frontier.remove(m),
            visited: self.visited,
            predecessor: self.predecessor,
        }
    }

    /// The state after `v` discovers `w` over an edge whose cost has rank
    /// `rank`.
    pub open spec fn discover(self, v: usize, w: usize, rank: int) -> SearchState {
        SearchState {
            frontier: self.frontier.push((w, rank)),
            visited: self.visited.update(w as int, true),
            predecessor: self.predecessor.update(w as int, v),
        }
    }

    /// The state after `v` has gone through the records of `list` in order
    /// and discovered each neighbor that was not discovered before.
    pub open spec fn relaxed<Attr>(
        self,
        v: usize,
        list: Seq<(usize, Attr)>,
        price: spec_fn(Attr) -> int,
    ) -> SearchState
        decreases list.len(),
    {
        if list.len() == 0 {
            self
        } else {
            let before = self.relaxed(v, list.drop_last(), price);
            let (w, attr) = list.last();
            if w < before.visited.len() && !before.visited[w as int] {
                before.discover(v, w, price(attr))
            } else {
                before
            }
        }
    }
}

/// A frontier that is not empty has an entry whose turn is next.
pub proof fn lemma_least_exists(frontier: Seq<(usize, int)>)
    requires
        frontier.len() > 0,
    ensures
        is_least(frontier, least(frontier)),
    decreases frontier.len(),
{
    if frontier.len() == 1 {
        assert(is_least(frontier, 0));
    } else {
        let front = frontier.drop_last();
        lemma_least_exists(front);
        let m = least(front);
        let last = frontier.len() - 1;
        if frontier[last].1 < front[m].1 {
            assert forall|j: int| 0 <= j < frontier.len() implies frontier[last].1 <= (
            #[trigger] frontier[j]).1 by {
                if j < last {
                    assert(front[j] == frontier[j]);
                }
            }
            assert forall|j: int| 0 <= j < last implies frontier[last].1 < (
            #[trigger] frontier[j]).1 by {
                assert(front[j] == frontier[j]);
            }
            assert(is_least(frontier, last));
        } else {
            assert forall|j: int| 0 <= j < frontier.len() implies frontier[m].1 <= (
            #[trigger] frontier[j]).1 by {
                if j < last {
                    assert(front[j] == frontier[j]);
                }
            }
            assert forall|j: int| 0 <= j < m implies frontier[m].1 < (#[trigger] frontier[j]).1 by {
                assert(front[j] == frontier[j]);
            }
            assert(is_least(frontier, m));
        }
    }
}

/// Only one entry can be next.
pub proof fn lemma_least_unique(frontier: Seq<(usize, int)>, a: int, b: int)
    requires
        is_least(frontier, a),
        is_least(frontier, b),
    ensures
        a == b,
{
    if a < b {
        assert(frontier[b].1 < frontier[a].1);
    } else if b < a {
        assert(frontier[a].1 < frontier[b].1);
    }
}

/// Discovering a vertex lowers the number of undiscovered vertices by one.
pub proof fn lemma_unvisited_mark(visited: Seq<bool>, w: int)
    requires
        0 <= w < visited.len(),
        !visited[w],
    ensures
        unvisited(visited.update(w, true)) + 1 == unvisited(visited),
    decreases visited.len(),
{
    let marked = visited.update(w, true);
    if w == visited.len() - 1 {
        assert(marked.drop_last() =~= visited.drop_last());
    } else {
        lemma_unvisited_mark(visited.drop_last(), w);
        assert(marked.drop_last() =~= visited.drop_last().update(w, true));
    }
}

/// Going through a list never raises the effort left, and keeps the number
/// of vertices.
pub proof fn lemma_relaxed_effort<Attr>(
    state: SearchState,
    v: usize,
    list: Seq<(usize, Attr)>,
    price: spec_fn(Attr) -> int,
)
    ensures
        state.relaxed(v, list, price).effort() <= state.effort(),
        state.relaxed(v, list, price).visited.len() == state.visited.len(),
    decreases list.len(),
{
    if list.len() > 0 {
        lemma_relaxed_effort(state, v, list.drop_last(), price);
        let before = state.relaxed(v, list.drop_last(), price);
        let (w, attr) = list.last();
        if w < before.visited.len() && !before.visited[w as int] {
            lemma_unvisited_mark(before.visited, w as int);
        }
    }
}

/// Where the search from `state` ends: the vertex at which it stops and the
/// discoverers at that moment, or nothing where the frontier runs empty
/// first. (A frontier entry that is no vertex of the graph would end the
/// search with nothing too; the search makes no such entry.)
pub open spec fn outcome<Attr>(
    g: Adjacency<(usize, Attr)>,
    state: SearchState,
    goal: spec_fn(usize) -> bool,
    price: spec_fn(Attr) -> int,
) -> Option<(usize, Seq<usize>)>
    decreases state.effort(),
{
    if state.frontier.len() == 0 {
        None
    } else {
        let m = least(state.frontier);
        let v = state.frontier[m].0;
        if goal(v) {
            Some((v, state.predecessor))
        } else if v < g.lists.len() {
            proof {
                lemma_least_exists(state.frontier);
                lemma_relaxed_effort(state.popped(m), v, g.lists[v as int], price);
            }
            outcome(g, state.popped(m).relaxed(v, g.lists[v as int], price), goal, price)
        } else {
            None
        }
    }
}

/// The way from `start` to `v` along the discoverers, in at most `fuel`
/// steps.
pub open spec fn route(predecessor: Seq<usize>, start: usize, v: usize, fuel: nat) -> Seq<usize>
    decreases fuel,
{
    if v == start || fuel == 0 || v >= predecessor.len() {
        seq![v]
    } else {
        route(predecessor, start, predecessor[v as int], (fuel - 1) as nat).push(v)
    }
}

/// The attribute of the first edge from each vertex of `path` to the next.
pub open spec fn attributes_along<Attr>(
    g: Adjacency<(usize, Attr)>,
    path: Seq<usize>,
) -> Seq<Attr> {
    Seq::new(
        (path.len() - 1) as nat,
        |i: int| attribute_of(first_toward(g.lists[path[i] as int], path[i + 1]))->0,
    )
}

/// What the search from `start` returns: the path to the first vertex that
/// meets `goal` at its turn, with the attributes of the edges along it, or
/// nothing where no vertex that gets a turn meets the goal.
pub open spec fn search<Attr>(
    g: Adjacency<(usize, Attr)>,
    start: usize,
    goal: spec_fn(usize) -> bool,
    price: spec_fn(Attr) -> int,
) -> Option<(Seq<usize>, Seq<Attr>)> {
    match outcome(g, SearchState::initial(g.lists.len(), start), goal, price) {
        Some((finish, predecessor)) => {
            let path = route(predecessor, start, finish, g.lists.len());
            Some((path, attributes_along(g, path)))
        },
        None => None,
    }
}

/// Whether `path` is a walk in the graph: it is not empty, its vertices are
/// vertices of the graph, and each has an edge to the next.
pub open spec fn is_walk<Attr>(g: Adjacency<(usize, Attr)>, path: Seq<usize>) -> bool {
    &&& path.len() >= 1
    &&& forall|i: int| 0 <= i < path.len() ==> (#[trigger] path[i]) < g.lists.len()
    &&& forall|i: int|
        0 <= i < path.len() - 1 ==> leads_to(g.lists[(#[trigger] path[i]) as int], path[i + 1])
}

/// Whether a walk leads from `start` to `v`.
pub open spec fn reachable<Attr>(g: Adjacency<(usize, Attr)>, start: usize, v: usize) -> bool {
    exists|path: Seq<usize>| #[trigger] is_walk(g, path) && path[0] == start && path.last() == v
}

/// Whether `w` was discovered over an edge from its recorded discoverer, and
/// after it.
pub open spec fn discovered_from<Attr>(
    g: Adjacency<(usize, Attr)>,
    state: SearchState,
    stamp: Seq<nat>,
    w: int,
) -> bool {
    let p = state.predecessor[w];
    &&& p < g.lists.len()
    &&& state.visited[p as int]
    &&& stamp[p as int] < stamp[w]
    &&& leads_to(g.lists[p as int], w as usize)
}

/// The discoverers form a tree rooted at `start`: `stamp` gives each
/// discovered vertex a time of discovery below the number of discovered
/// vertices, each but `start` was discovered over an edge from an earlier
/// one, and the frontier holds discovered vertices only.
pub open spec fn tree_ok<Attr>(
    g: Adjacency<(usize, Attr)>,
    start: usize,
    state: SearchState,
    stamp: Seq<nat>,
) -> bool {
    let n = g.lists.len();
    &&& state.visited.len() == n
    &&& state.predecessor.len() == n
    &&& stamp.len() == n
    &&& start < n
    &&& state.visited[start as int]
    &&& forall|w: int|
        0 <= w < n && #[trigger] state.visited[w] ==> stamp[w] + unvisited(state.visited) < n
    &&& forall|w: int|
        0 <= w < n && #[trigger] state.visited[w] && w != start ==> discovered_from(
            g,
            state,
            stamp,
            w,
        )
    &&& forall|i: int|
        0 <= i < state.frontier.len() ==> (#[trigger] state.frontier[i]).0 < n
            && state.visited[state.frontier[i].0 as int]
}

/// Whether `u` waits in the frontier.
pub open spec fn waits(state: SearchState, u: int) -> bool {
    exists|i: int| 0 <= i < state.frontier.len() && (#[trigger] state.frontier[i]).0 == u
}

/// Whether `u` has had its turn: it did not meet the goal, and all its
/// neighbors are discovered.
pub open spec fn settled<Attr>(
    g: Adjacency<(usize, Attr)>,
    state: SearchState,
    goal: spec_fn(usize) -> bool,
    u: int,
) -> bool {
    &&& !goal(u as usize)
    &&& forall|j: int|
        0 <= j < g.lists[u].len() ==> state.visited[(#[trigger] g.lists[u][j]).0 as int]
}

/// Every discovered vertex waits or has had its turn, but for the vertex
/// `turn` whose turn it is (no vertex where `turn` is negative).
pub open spec fn covered<Attr>(
    g: Adjacency<(usize, Attr)>,
    state: SearchState,
    goal: spec_fn(usize) -> bool,
    turn: int,
) -> bool {
    forall|u: int|
        0 <= u < g.lists.len() && #[trigger] state.visited[u] && u != turn ==> waits(state, u)
            || settled(g, state, goal, u)
}

/// No more vertices are undiscovered than there are vertices.
pub proof fn lemma_unvisited_bound(visited: Seq<bool>)
    ensures
        unvisited(visited) <= visited.len(),
    decreases visited.len(),
{
    if visited.len() > 0 {
        lemma_unvisited_bound(visited.drop_last());
    }
}

/// The state before the first turn meets the invariants, with every stamp
/// zero.
pub proof fn lemma_initial_ok<Attr>(
    g: Adjacency<(usize, Attr)>,
    start: usize,
    goal: spec_fn(usize) -> bool,
)
    requires
        start < g.lists.len(),
    ensures
        tree_ok(
            g,
            start,
            SearchState::initial(g.lists.len(), start),
            Seq::new(g.lists.len(), |v: int| 0nat),
        ),
        covered(g, SearchState::initial(g.lists.len(), start), goal, -1),
{
    let n = g.lists.len();
    let state = SearchState::initial(n, start);
    let blank = Seq::new(n, |v: int| false);
    lemma_unvisited_bound(blank);
    lemma_unvisited_mark(blank, start as int);
    assert(blank.update(start as int, true) =~= state.visited);
    assert(state.frontier[0].0 == start);
    assert forall|u: int| 0 <= u < n && #[trigger] state.visited[u] implies waits(state, u) by {
        assert(state.frontier[0].0 == u);
    }
}

/// Taking an entry out of the frontier keeps the tree; the entry's vertex
/// is a discovered vertex of the graph.
pub proof fn lemma_popped_tree<Attr>(
    g: Adjacency<(usize, Attr)>,
    start: usize,
    state: SearchState,
    stamp: Seq<nat>,
    m: int,
)
    requires
        tree_ok(g, start, state, stamp),
        0 <= m < state.frontier.len(),
    ensures
        state.frontier[m].0 < g.lists.len(),
        state.visited[state.frontier[m].0 as int],
        tree_ok(g, start, state.popped(m), stamp),
{
    let next = state.popped(m);
    let n = g.lists.len();
    assert forall|i: int| 0 <= i < next.frontier.len() implies (#[trigger] next.frontier[i]).0 < n
        && next.visited[next.frontier[i].0 as int] by {
        if i < m {
            assert(next.frontier[i] == state.frontier[i]);
        } else {
            assert(next.frontier[i] == state.frontier[i + 1]);
        }
    }
}

/// Taking the entry of `state.frontier[m]` out of the frontier leaves every
/// other discovered vertex waiting or settled.
pub proof fn lemma_popped_covered<Attr>(
    g: Adjacency<(usize, Attr)>,
    goal: spec_fn(usize) -> bool,
    state: SearchState,
    m: int,
)
    requires
        covered(g, state, goal, -1),
        0 <= m < state.frontier.len(),
    ensures
        covered(g, state.popped(m), goal, state.frontier[m].0 as int),
{
    let next = state.popped(m);
    assert forall|u: int|
        0 <= u < g.lists.len() && #[trigger] next.visited[u] && u
            != state.frontier[m].0 implies waits(next, u) || settled(g, next, goal, u) by {
        if waits(state, u) {
            let i = choose|i: int|
                0 <= i < state.frontier.len() && (#[trigger] state.frontier[i]).0 == u;
            if i < m {
                assert(next.frontier[i] == state.frontier[i]);
            } else {
                assert(next.frontier[i - 1] == state.frontier[i]);
            }
        } else {
            assert(settled(g, state, goal, u));
        }
    }
}

/// What going through a list does to a state, whatever the tree: no
/// discovery is forgotten, the entries that waited still wait at their
/// places, and each vertex that is newly discovered waits.
pub open spec fn grown(state: SearchState, next: SearchState) -> bool {
    &&& next.visited.len() == state.visited.len()
    &&& forall|u: int|
        0 <= u < state.visited.len() && state.visited[u] ==> #[trigger] next.visited[u]
    &&& next.frontier.len() >= state.frontier.len()
    &&& forall|i: int|
        0 <= i < state.frontier.len() ==> #[trigger] next.frontier[i] == state.frontier[i]
    &&& forall|u: int|
        0 <= u < state.visited.len() && #[trigger] next.visited[u] && !state.visited[u] ==> waits(
            next,
            u,
        )
}

/// A discovery keeps the tree: the newly discovered vertex gets the number
/// of vertices discovered before it as its stamp.
pub proof fn lemma_discover_tree<Attr>(
    g: Adjacency<(usize, Attr)>,
    start: usize,
    state: SearchState,
    stamp: Seq<nat>,
    v: usize,
    w: usize,
    rank: int,
) -> (after: Seq<nat>)
    requires
        tree_ok(g, start, state, stamp),
        v < g.lists.len(),
        state.visited[v as int],
        w < g.lists.len(),
        !state.visited[w as int],
        leads_to(g.lists[v as int], w),
    ensures
        tree_ok(g, start, state.discover(v, w, rank), after),
        grown(state, state.discover(v, w, rank)),
        state.discover(v, w, rank).visited[w as int],
{
    let n = g.lists.len();
    let next = state.discover(v, w, rank);
    lemma_unvisited_mark(state.visited, w as int);
    lemma_unvisited_bound(state.visited);
    let after = stamp.update(w as int, (n - unvisited(state.visited)) as nat);
    assert forall|u: int| 0 <= u < n && #[trigger] next.visited[u] implies after[u] + unvisited(
        next.visited,
    ) < n by {
        if u != w {
            assert(state.visited[u]);
        }
    }
    assert forall|u: int|
        0 <= u < n && #[trigger] next.visited[u] && u != start implies discovered_from(
        g,
        next,
        after,
        u,
    ) by {
        if u != w {
            assert(state.visited[u]);
            assert(discovered_from(g, state, stamp, u));
        } else {
            assert(state.visited[v as int]);
        }
    }
    assert forall|i: int| 0 <= i < next.frontier.len() implies (#[trigger] next.frontier[i]).0 < n
        && next.visited[next.frontier[i].0 as int] by {
        if i < state.frontier.len() {
            assert(next.frontier[i] == state.frontier[i]);
        }
    }
    assert forall|u: int|
        0 <= u < n && #[trigger] next.visited[u] && !state.visited[u] implies waits(next, u) by {
        assert(next.frontier[state.frontier.len() as int].0 == w);
    }
    after
}

/// What held of a state that grew into a second holds of a third that the
/// second grew into.
pub proof fn lemma_grown_twice(state: SearchState, mid: SearchState, next: SearchState)
    requires
        grown(state, mid),
        grown(mid, next),
    ensures
        grown(state, next),
{
    assert forall|u: int|
        0 <= u < state.visited.len() && state.visited[u] implies #[trigger] next.visited[u] by {
        assert(mid.visited[u]);
    }
    assert forall|i: int| 0 <= i < state.frontier.len() implies #[trigger] next.frontier[i]
        == state.frontier[i] by {
        assert(mid.frontier[i] == state.frontier[i]);
    }
    assert forall|u: int|
        0 <= u < state.visited.len() && #[trigger] next.visited[u]
            && !state.visited[u] implies waits(next, u) by {
        if mid.visited[u] {
            assert(waits(mid, u));
            let i = choose|i: int|
                0 <= i < mid.frontier.len() && (#[trigger] mid.frontier[i]).0 == u;
            assert(next.frontier[i] == mid.frontier[i]);
        }
    }
}

/// Going through the first `k` records of the list of `v` keeps the tree,
/// and leaves the first `k` neighbors of `v` discovered. The result is the
/// stamps of the tree after it.
pub proof fn lemma_relaxed_tree<Attr>(
    g: Adjacency<(usize, Attr)>,
    start: usize,
    price: spec_fn(Attr) -> int,
    state: SearchState,
    stamp: Seq<nat>,
    v: usize,
    k: int,
) -> (after: Seq<nat>)
    requires
        g.in_range(),
        tree_ok(g, start, state, stamp),
        v < g.lists.len(),
        state.visited[v as int],
        0 <= k <= g.lists[v as int].len(),
    ensures
        tree_ok(g, start, state.relaxed(v, g.lists[v as int].take(k), price), after),
        grown(state, state.relaxed(v, g.lists[v as int].take(k), price)),
        forall|j: int|
            0 <= j < k ==> state.relaxed(v, g.lists[v as int].take(k), price).visited[(
            #[trigger] g.lists[v as int][j]).0 as int],
    decreases k,
{
    let n = g.lists.len();
    let list = g.lists[v as int].take(k);
    if k == 0 {
        assert(list.len() == 0);
        stamp
    } else {
        let mid_stamp = lemma_relaxed_tree(g, start, price, state, stamp, v, k - 1);
        assert(list.drop_last() =~= g.lists[v as int].take(k - 1));
        let mid = state.relaxed(v, list.drop_last(), price);
        let (w, attr) = list.last();
        assert(list.last() == g.lists[v as int][k - 1]);
        assert(w < n);
        let next = state.relaxed(v, list, price);
        if !mid.visited[w as int] {
            assert(next == mid.discover(v, w, price(attr)));
            assert(mid.visited[v as int]);
            assert(g.lists[v as int][k - 1].0 == w);
            let after = lemma_discover_tree(g, start, mid, mid_stamp, v, w, price(attr));
            lemma_grown_twice(state, mid, next);
            assert forall|j: int| 0 <= j < k implies next.visited[(
            #[trigger] g.lists[v as int][j]).0 as int] by {
                if j < k - 1 {
                    assert(mid.visited[g.lists[v as int][j].0 as int]);
                }
            }
            after
        } else {
            assert(next == mid);
            mid_stamp
        }
    }
}

/// The state after the turn of the frontier entry that is next, where that
/// turn does not stop the search.
pub open spec fn next_state<Attr>(
    g: Adjacency<(usize, Attr)>,
    state: SearchState,
    price: spec_fn(Attr) -> int,
) -> SearchState {
    let m = least(state.frontier);
    let v = state.frontier[m].0;
    state.popped(m).relaxed(v, g.lists[v as int], price)
}

/// A turn that does not stop the search keeps the tree, leaves all
/// neighbors of the vertex that had the turn discovered, and lowers the
/// effort left. The result is the stamps of the tree after the turn.
pub proof fn lemma_turn_tree<Attr>(
    g: Adjacency<(usize, Attr)>,
    start: usize,
    price: spec_fn(Attr) -> int,
    state: SearchState,
    stamp: Seq<nat>,
) -> (after: Seq<nat>)
    requires
        g.in_range(),
        tree_ok(g, start, state, stamp),
        state.frontier.len() > 0,
    ensures
        state.frontier[least(state.frontier)].0 < g.lists.len(),
        tree_ok(g, start, next_state(g, state, price), after),
        grown(state.popped(least(state.frontier)), next_state(g, state, price)),
        forall|j: int|
            0 <= j < g.lists[state.frontier[least(state.frontier)].0 as int].len()
                ==> next_state(g, state, price).visited[(
            #[trigger] g.lists[state.frontier[least(state.frontier)].0 as int][j]).0 as int],
        next_state(g, state, price).effort() < state.effort(),
{
    lemma_least_exists(state.frontier);
    let m = least(state.frontier);
    let v = state.frontier[m].0;
    lemma_popped_tree(g, start, state, stamp, m);
    let list = g.lists[v as int];
    let after = lemma_relaxed_tree(g, start, price, state.popped(m), stamp, v, list.len() as int);
    assert(list.take(list.len() as int) =~= list);
    lemma_relaxed_effort(state.popped(m), v, list, price);
    after
}

/// After a turn that does not stop the search, every discovered vertex
/// waits or is settled again.
pub proof fn lemma_turn_covered<Attr>(
    g: Adjacency<(usize, Attr)>,
    start: usize,
    goal: spec_fn(usize) -> bool,
    price: spec_fn(Attr) -> int,
    state: SearchState,
    stamp: Seq<nat>,
)
    requires
        g.in_range(),
        tree_ok(g, start, state, stamp),
        covered(g, state, goal, -1),
        state.frontier.len() > 0,
        !goal(state.frontier[least(state.frontier)].0),
    ensures
        covered(g, next_state(g, state, price), goal, -1),
{
    lemma_least_exists(state.frontier);
    let m = least(state.frontier);
    let v = state.frontier[m].0;
    let mid = state.popped(m);
    let next = next_state(g, state, price);
    let after = lemma_turn_tree(g, start, price, state, stamp);
    lemma_popped_covered(g, goal, state, m);
    assert(settled(g, next, goal, v as int));
    assert forall|u: int| 0 <= u < g.lists.len() && #[trigger] next.visited[u] implies waits(
        next,
        u,
    ) || settled(g, next, goal, u) by {
        if u != v {
            if mid.visited[u] {
                if waits(mid, u) {
                    let i = choose|i: int|
                        0 <= i < mid.frontier.len() && (#[trigger] mid.frontier[i]).0 == u;
                    assert(next.frontier[i] == mid.frontier[i]);
                } else {
                    assert(settled(g, mid, goal, u));
                    assert forall|j: int| 0 <= j < g.lists[u].len() implies next.visited[(
                    #[trigger] g.lists[u][j]).0 as int] by {
                        assert(mid.visited[g.lists[u][j].0 as int]);
                    }
                }
            }
        }
    }
}

/// The search ends after a turn that does not stop it as it does from the
/// state after that turn.
pub proof fn lemma_turn_outcome<Attr>(
    g: Adjacency<(usize, Attr)>,
    state: SearchState,
    goal: spec_fn(usize) -> bool,
    price: spec_fn(Attr) -> int,
)
    requires
        state.frontier.len() > 0,
        state.frontier[least(state.frontier)].0 < g.lists.len(),
        !goal(state.frontier[least(state.frontier)].0),
    ensures
        outcome(g, state, goal, price) == outcome(g, next_state(g, state, price), goal, price),
{
}

/// The way to a discovered vertex `v` along the discoverers, given at least
/// as much fuel as the stamp of `v`: it does not depend on the fuel, is a
/// walk from `start` to `v` through discovered vertices, and the stamps rise
/// along it.
pub proof fn lemma_route<Attr>(
    g: Adjacency<(usize, Attr)>,
    start: usize,
    state: SearchState,
    stamp: Seq<nat>,
    v: usize,
    fuel: nat,
)
    requires
        tree_ok(g, start, state, stamp),
        v < g.lists.len(),
        state.visited[v as int],
        fuel >= stamp[v as int],
    ensures
        route(state.predecessor, start, v, fuel) == route(
            state.predecessor,
            start,
            v,
            stamp[v as int],
        ),
        is_walk(g, route(state.predecessor, start, v, fuel)),
        route(state.predecessor, start, v, fuel)[0] == start,
        route(state.predecessor, start, v, fuel).last() == v,
        forall|i: int|
            0 <= i < route(state.predecessor, start, v, fuel).len() ==> state.visited[(
            #[trigger] route(state.predecessor, start, v, fuel)[i]) as int] && stamp[route(
                state.predecessor,
                start,
                v,
                fuel,
            )[i] as int] <= stamp[v as int],
        forall|i: int, j: int|
            0 <= i < j < route(state.predecessor, start, v, fuel).len() ==> stamp[(
            #[trigger] route(state.predecessor, start, v, fuel)[i]) as int] < stamp[(
            #[trigger] route(state.predecessor, start, v, fuel)[j]) as int],
    decreases stamp[v as int],
{
    let path = route(state.predecessor, start, v, fuel);
    if v != start {
        assert(discovered_from(g, state, stamp, v as int));
        let p = state.predecessor[v as int];
        lemma_route(g, start, state, stamp, p, (fuel - 1) as nat);
        lemma_route(g, start, state, stamp, p, (stamp[v as int] - 1) as nat);
        let sub = route(state.predecessor, start, p, (fuel - 1) as nat);
        assert(path == sub.push(v));
        assert forall|i: int| 0 <= i < path.len() - 1 implies leads_to(
            g.lists[(#[trigger] path[i]) as int],
            path[i + 1],
        ) by {
            if i < sub.len() - 1 {
                assert(path[i] == sub[i]);
                assert(path[i + 1] == sub[i + 1]);
            }
        }
        assert forall|i: int, j: int| 0 <= i < j < path.len() implies stamp[(
        #[trigger] path[i]) as int] < stamp[(#[trigger] path[j]) as int] by {
            assert(path[i] == sub[i]);
            if j < sub.len() {
                assert(path[j] == sub[j]);
            }
        }
    }
}

/// The way to a discovered vertex but `start` is the way to its discoverer,
/// and one step more.
pub proof fn lemma_route_step<Attr>(
    g: Adjacency<(usize, Attr)>,
    start: usize,
    state: SearchState,
    stamp: Seq<nat>,
    v: usize,
)
    requires
        tree_ok(g, start, state, stamp),
        v < g.lists.len(),
        state.visited[v as int],
        v != start,
    ensures
        state.predecessor[v as int] < g.lists.len(),
        state.visited[state.predecessor[v as int] as int],
        stamp[state.predecessor[v as int] as int] < stamp[v as int],
        leads_to(g.lists[state.predecessor[v as int] as int], v),
        route(state.predecessor, start, v, g.lists.len()) == route(
            state.predecessor,
            start,
            state.predecessor[v as int],
            g.lists.len(),
        ).push(v),
{
    let n = g.lists.len();
    assert(discovered_from(g, state, stamp, v as int));
    let p = state.predecessor[v as int];
    lemma_route(g, start, state, stamp, p, (n - 1) as nat);
    lemma_route(g, start, state, stamp, p, n);
}

/// Where the search ends at a vertex, that vertex meets the goal and is
/// part of a tree; where it ends with nothing, the frontier of some state
/// that meets the invariants is empty.
pub proof fn lemma_outcome<Attr>(
    g: Adjacency<(usize, Attr)>,
    start: usize,
    goal: spec_fn(usize) -> bool,
    price: spec_fn(Attr) -> int,
    state: SearchState,
    stamp: Seq<nat>,
)
    requires
        g.in_range(),
        tree_ok(g, start, state, stamp),
        covered(g, state, goal, -1),
    ensures
        match outcome(g, state, goal, price) {
            Some((finish, predecessor)) => exists|last: SearchState, marks: Seq<nat>|
                {
                    &&& #[trigger] tree_ok(g, start, last, marks)
                    &&& last.predecessor == predecessor
                    &&& finish < g.lists.len()
                    &&& last.visited[finish as int]
                    &&& goal(finish)
                },
            None => exists|last: SearchState, marks: Seq<nat>|
                {
                    &&& #[trigger] tree_ok(g, start, last, marks)
                    &&& covered(g, last, goal, -1)
                    &&& last.frontier.len() == 0
                },
        },
    decreases state.effort(),
{
    if state.frontier.len() == 0 {
        assert(tree_ok(g, start, state, stamp));
    } else {
        lemma_least_exists(state.frontier);
        let m = least(state.frontier);
        let v = state.frontier[m].0;
        lemma_popped_tree(g, start, state, stamp, m);
        if goal(v) {
            assert(tree_ok(g, start, state, stamp));
        } else {
            let after = lemma_turn_tree(g, start, price, state, stamp);
            lemma_turn_covered(g, start, goal, price, state, stamp);
            lemma_turn_outcome(g, state, goal, price);
            lemma_outcome(g, start, goal, price, next_state(g, state, price), after);
        }
    }
}

/// Where the frontier is empty, a walk from `start` never leaves the
/// discovered vertices, and none of its vertices meets the goal.
pub proof fn lemma_walk_stays<Attr>(
    g: Adjacency<(usize, Attr)>,
    start: usize,
    goal: spec_fn(usize) -> bool,
    last: SearchState,
    marks: Seq<nat>,
    path: Seq<usize>,
    i: int,
)
    requires
        tree_ok(g, start, last, marks),
        covered(g, last, goal, -1),
        last.frontier.len() == 0,
        is_walk(g, path),
        path[0] == start,
        0 <= i < path.len(),
    ensures
        last.visited[path[i] as int],
        !goal(path[i]),
    decreases i,
{
    if i > 0 {
        lemma_walk_stays(g, start, goal, last, marks, path, i - 1);
        let u = path[i - 1];
        assert(last.visited[u as int]);
        assert(!waits(last, u as int));
        assert(settled(g, last, goal, u as int));
        assert(leads_to(g.lists[u as int], path[i]));
        let j = choose|j: int|
            0 <= j < g.lists[u as int].len() && (#[trigger] g.lists[u as int][j]).0 == path[i];
        assert(last.visited[g.lists[u as int][j].0 as int]);
    }
    let u = path[i];
    assert(last.visited[u as int]);
    assert(!waits(last, u as int));
    assert(settled(g, last, goal, u as int));
}

/// A path that the search returns is a walk from `start` to a vertex that
/// meets the goal, passes no vertex twice, and comes with the attribute of
/// the first edge from each of its vertices to the next.
pub proof fn law_found_path_is_walk<Attr>(
    g: Adjacency<(usize, Attr)>,
    start: usize,
    goal: spec_fn(usize) -> bool,
    price: spec_fn(Attr) -> int,
)
    requires
        g.in_range(),
        start < g.order(),
    ensures
        search(g, start, goal, price) matches Some((path, attrs)) ==> {
            &&& is_walk(g, path)
            &&& path[0] == start
            &&& goal(path.last())
            &&& path.no_duplicates()
            &&& path.len() <= g.order()
            &&& attrs.len() + 1 == path.len()
            &&& forall|i: int|
                0 <= i < attrs.len() ==> first_toward(g.lists[path[i] as int], path[i + 1])
                    == Some((path[i + 1], #[trigger] attrs[i]))
        },
{
    let n = g.lists.len();
    let first = SearchState::initial(n, start);
    lemma_initial_ok(g, start, goal);
    lemma_outcome(g, start, goal, price, first, Seq::new(n, |v: int| 0nat));
    if let Some((finish, predecessor)) = outcome(g, first, goal, price) {
        let (last, marks) = choose|last: SearchState, marks: Seq<nat>|
            {
                &&& #[trigger] tree_ok(g, start, last, marks)
                &&& last.predecessor == predecessor
                &&& finish < g.lists.len()
                &&& last.visited[finish as int]
                &&& goal(finish)
            };
        lemma_route(g, start, last, marks, finish, n);
        let path = route(predecessor, start, finish, n);
        let attrs = attributes_along(g, path);
        assert forall|i: int, j: int| 0 <= i < j < path.len() implies path[i] != path[j] by {
            assert(marks[path[i] as int] < marks[path[j] as int]);
        }
        lemma_stamps_count(marks, path, n);
        assert forall|i: int| 0 <= i < attrs.len() implies first_toward(
            g.lists[path[i] as int],
            path[i + 1],
        ) == Some((path[i + 1], #[trigger] attrs[i])) by {
            let list = g.lists[path[i] as int];
            let toward = path[i + 1];
            assert(leads_to(list, toward));
            lemma_first_toward_exists(list, toward);
            let k = choose|k: int| is_first_toward(list, toward, k);
            lemma_first_toward_at(list, toward, k);
        }
    }
}

/// A sequence whose elements have rising stamps below `n` has at most `n`
/// elements.
pub proof fn lemma_stamps_count(marks: Seq<nat>, path: Seq<usize>, n: nat)
    requires
        forall|i: int| 0 <= i < path.len() ==> (#[trigger] path[i]) < marks.len(),
        forall|i: int| 0 <= i < path.len() ==> marks[(#[trigger] path[i]) as int] < n,
        forall|i: int, j: int|
            0 <= i < j < path.len() ==> marks[(#[trigger] path[i]) as int] < marks[(
            #[trigger] path[j]) as int],
    ensures
        path.len() <= n,
        forall|i: int| 0 <= i < path.len() ==> marks[(#[trigger] path[i]) as int] >= i,
    decreases path.len(),
{
    if path.len() > 0 {
        let front = path.drop_last();
        assert forall|i: int| 0 <= i < front.len() implies (#[trigger] front[i]) < marks.len()
            && marks[front[i] as int] < n by {
            assert(front[i] == path[i]);
        }
        assert forall|i: int, j: int| 0 <= i < j < front.len() implies marks[(
        #[trigger] front[i]) as int] < marks[(#[trigger] front[j]) as int] by {
            assert(front[i] == path[i]);
            assert(front[j] == path[j]);
        }
        lemma_stamps_count(marks, front, n);
        let k = path.len() - 1;
        if k > 0 {
            assert(front[k - 1] == path[k - 1]);
            assert(marks[path[k - 1] as int] < marks[path[k] as int]);
        }
        assert forall|i: int| 0 <= i < path.len() implies marks[(#[trigger] path[i]) as int]
            >= i by {
            if i < k {
                assert(front[i] == path[i]);
            }
        }
        assert(marks[path[k] as int] < n);
    }
}

/// The search returns a path exactly where a walk leads from `start` to a
/// vertex that meets the goal.
pub proof fn law_found_iff_reachable<Attr>(
    g: Adjacency<(usize, Attr)>,
    start: usize,
    goal: spec_fn(usize) -> bool,
    price: spec_fn(Attr) -> int,
)
    requires
        g.in_range(),
        start < g.order(),
    ensures
        search(g, start, goal, price) is Some <==> exists|v: usize| #[trigger]
            reachable(g, start, v) && goal(v),
{
    let n = g.lists.len();
    let first = SearchState::initial(n, start);
    law_found_path_is_walk(g, start, goal, price);
    match search(g, start, goal, price) {
        Some((path, attrs)) => {
            assert(is_walk(g, path));
            assert(reachable(g, start, path.last()));
        },
        None => {
            lemma_initial_ok(g, start, goal);
            lemma_outcome(g, start, goal, price, first, Seq::new(n, |v: int| 0nat));
            let (last, marks) = choose|last: SearchState, marks: Seq<nat>|
                {
                    &&& #[trigger] tree_ok(g, start, last, marks)
                    &&& covered(g, last, goal, -1)
                    &&& last.frontier.len() == 0
                };
            assert forall|v: usize| #[trigger] reachable(g, start, v) implies !goal(v) by {
                let path = choose|path: Seq<usize>| #[trigger]
                    is_walk(g, path) && path[0] == start && path.last() == v;
                lemma_walk_stays(g, start, goal, last, marks, path, path.len() - 1);
            }
        },
    }
}

/// The vertices that get a turn in the search from `state`, in the order of
/// their turns, up to the turn that stops the search.
pub open spec fn turns<Attr>(
    g: Adjacency<(usize, Attr)>,
    state: SearchState,
    goal: spec_fn(usize) -> bool,
    price: spec_fn(Attr) -> int,
) -> Seq<usize>
    decreases state.effort(),
{
    if state.frontier.len() == 0 {
        Seq::empty()
    } else {
        let v = state.frontier[least(state.frontier)].0;
        if goal(v) || v >= g.lists.len() {
            seq![v]
        } else {
            proof {
                lemma_least_exists(state.frontier);
                lemma_relaxed_effort(
                    state.popped(least(state.frontier)),
                    v,
                    g.lists[v as int],
                    price,
                );
            }
            seq![v] + turns(g, next_state(g, state, price), goal, price)
        }
    }
}

/// The search from `state` ends at the vertex that has the last turn; that
/// vertex meets the goal and no vertex with an earlier turn does. Where the
/// search ends with nothing, no vertex that has a turn meets the goal.
pub proof fn lemma_turns<Attr>(
    g: Adjacency<(usize, Attr)>,
    start: usize,
    goal: spec_fn(usize) -> bool,
    price: spec_fn(Attr) -> int,
    state: SearchState,
    stamp: Seq<nat>,
)
    requires
        g.in_range(),
        tree_ok(g, start, state, stamp),
    ensures
        match outcome(g, state, goal, price) {
            Some((finish, _)) => {
                &&& turns(g, state, goal, price).len() > 0
                &&& turns(g, state, goal, price).last() == finish
                &&& goal(finish)
                &&& forall|i: int|
                    0 <= i < turns(g, state, goal, price).len() - 1 ==> !goal(
                        #[trigger] turns(g, state, goal, price)[i],
                    )
            },
            None => forall|i: int|
                0 <= i < turns(g, state, goal, price).len() ==> !goal(
                    #[trigger] turns(g, state, goal, price)[i],
                ),
        },
    decreases state.effort(),
{
    if state.frontier.len() > 0 {
        lemma_least_exists(state.frontier);
        let v = state.frontier[least(state.frontier)].0;
        lemma_popped_tree(g, start, state, stamp, least(state.frontier));
        if !goal(v) {
            let next = next_state(g, state, price);
            let after = lemma_turn_tree(g, start, price, state, stamp);
            lemma_turn_outcome(g, state, goal, price);
            lemma_turns(g, start, goal, price, next, after);
            let rest = turns(g, next, goal, price);
            let all = turns(g, state, goal, price);
            assert(all == seq![v] + rest);
            assert forall|i: int| 1 <= i < all.len() implies all[i] == rest[i - 1] by {}
            if outcome(g, state, goal, price) is Some {
                assert(all.last() == rest.last());
                assert forall|i: int| 0 <= i < all.len() - 1 implies !goal(#[trigger] all[i]) by {
                    if i > 0 {
                        assert(all[i] == rest[i - 1]);
                    }
                }
            } else {
                assert forall|i: int| 0 <= i < all.len() implies !goal(#[trigger] all[i]) by {
                    if i > 0 {
                        assert(all[i] == rest[i - 1]);
                    }
                }
            }
        }
    }
}

/// The search stops at the first vertex that meets the goal at its turn:
/// the path that it returns ends at the vertex of the last turn, and no
/// vertex with an earlier turn meets the goal. The first turn is that of
/// `start`.
pub proof fn law_stops_at_first_turn<Attr>(
    g: Adjacency<(usize, Attr)>,
    start: usize,
    goal: spec_fn(usize) -> bool,
    price: spec_fn(Attr) -> int,
)
    requires
        g.in_range(),
        start < g.order(),
    ensures
        turns(g, SearchState::initial(g.order(), start), goal, price).len() > 0,
        turns(g, SearchState::initial(g.order(), start), goal, price)[0] == start,
        match search(g, start, goal, price) {
            Some((path, _)) => {
                &&& path.last() == turns(
                    g,
                    SearchState::initial(g.order(), start),
                    goal,
                    price,
                ).last()
                &&& forall|i: int|
                    0 <= i < turns(g, SearchState::initial(g.order(), start), goal, price).len()
                        - 1 ==> !goal(
                        #[trigger] turns(g, SearchState::initial(g.order(), start), goal, price)[i],
                    )
            },
            None => forall|i: int|
                0 <= i < turns(g, SearchState::initial(g.order(), start), goal, price).len()
                    ==> !goal(
                    #[trigger] turns(g, SearchState::initial(g.order(), start), goal, price)[i],
                ),
        },
{
    let n = g.lists.len();
    let first = SearchState::initial(n, start);
    let marks = Seq::new(n, |v: int| 0nat);
    lemma_initial_ok(g, start, goal);
    lemma_turns(g, start, goal, price, first, marks);
    lemma_least_exists(first.frontier);
    assert(is_least(first.frontier, 0));
    lemma_least_unique(first.frontier, 0, least(first.frontier));
    lemma_outcome(g, start, goal, price, first, marks);
    if let Some((finish, predecessor)) = outcome(g, first, goal, price) {
        let (last, stamps) = choose|last: SearchState, stamps: Seq<nat>|
            {
                &&& #[trigger] tree_ok(g, start, last, stamps)
                &&& last.predecessor == predecessor
                &&& finish < g.lists.len()
                &&& last.visited[finish as int]
                &&& goal(finish)
            };
        lemma_route(g, start, last, stamps, finish, n);
    }
}

/// Where `start` itself meets the goal, the search returns the path that
/// holds `start` alone, and no attribute.
pub proof fn law_start_meets_goal<Attr>(
    g: Adjacency<(usize, Attr)>,
    start: usize,
    goal: spec_fn(usize) -> bool,
    price: spec_fn(Attr) -> int,
)
    requires
        goal(start),
    ensures
        search(g, start, goal, price) == Some((seq![start], Seq::<Attr>::empty())),
{
    let first = SearchState::initial(g.lists.len(), start);
    lemma_least_exists(first.frontier);
    assert(is_least(first.frontier, 0));
    lemma_least_unique(first.frontier, 0, least(first.frontier));
    let path = route(first.predecessor, start, start, g.lists.len());
    assert(path =~= seq![start]);
    assert(attributes_along(g, path) =~= Seq::<Attr>::empty());
}

} // verus!
