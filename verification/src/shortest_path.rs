//! The search for a path in an edge-attributed undirected graph.
//!
//! The frontier is ordered by the cost of the edge over which a vertex was
//! discovered, not by the cost of the whole way to it. Among the entries of
//! least cost the one discovered first has its turn first.
//!
//! The termination condition and the cost function are executable functions.
//! What they compute is stated by two mathematical functions, here called a
//! goal and a price: the contract of the search holds for every goal and
//! price that the two executable functions are bound to by their own
//! contracts.

use crate::adjacency::Adjacency;
use crate::cost::Cost;
use crate::edge_attributed_undirected::EdgeAttributedUndirectedGraph;
use crate::error::SearchError;
use crate::search::{
    attributes_along, is_least, is_walk, law_found_iff_reachable, law_found_path_is_walk,
    law_start_meets_goal, least, lemma_initial_ok, lemma_least_exists, lemma_least_unique,
    lemma_popped_tree, lemma_route, lemma_route_step, lemma_turn_outcome, lemma_turn_tree,
    next_state, outcome, reachable, route, search, tree_ok, SearchState,
};
use vstd::prelude::*;

verus! {

/// When a search stops.
pub enum Termination<P> {
    /// At this vertex.
    Vertex(usize),
    /// At the first vertex that gets its turn and for which the predicate
    /// holds.
    Predicate(P),
}

impl<P: Fn(usize) -> bool> Termination<P> {
    /// Whether the condition can hold of `v`: `v` is the target, or the
    /// predicate can answer `true` for it.
    pub open spec fn accepts(&self, v: usize) -> bool {
        match self {
            Termination::Vertex(target) => v == *target,
            Termination::Predicate(holds) => holds.ensures((v,), true),
        }
    }

    /// Whether the condition can be evaluated on `v`.
    pub open spec fn callable_at(&self, v: usize) -> bool {
        match self {
            Termination::Vertex(_) => true,
            Termination::Predicate(holds) => holds.requires((v,)),
        }
    }

    /// Whether the condition can be evaluated on every vertex below `order`.
    pub open spec fn callable(&self, order: nat) -> bool {
        forall|v: usize| v < order ==> #[trigger] self.callable_at(v)
    }

    /// Whether `goal` says of `v` what the condition says of it: `v` is the
    /// target, or `goal(v)` is the only answer that the predicate can give.
    pub open spec fn decided_at(&self, goal: spec_fn(usize) -> bool, v: usize) -> bool {
        match self {
            Termination::Vertex(target) => goal(v) == (v == *target),
            Termination::Predicate(holds) => forall|answer: bool| #[trigger]
                holds.ensures((v,), answer) ==> answer == goal(v),
        }
    }

    /// Whether `goal` says of every vertex below `order` what the condition
    /// says of it.
    pub open spec fn decided_by(&self, goal: spec_fn(usize) -> bool, order: nat) -> bool {
        forall|v: usize| v < order ==> #[trigger] self.decided_at(goal, v)
    }

    /// Evaluates the condition on `v`.
    pub fn reached(&self, v: usize) -> (stop: bool)
        requires
            self.callable_at(v),
        ensures
            self matches Termination::Vertex(target) ==> stop == (v == target),
            self matches Termination::Predicate(holds) ==> holds.ensures((v,), stop),
            stop ==> self.accepts(v),
            forall|goal: spec_fn(usize) -> bool| #[trigger]
                self.decided_at(goal, v) ==> stop == goal(v),
    {
        match self {
            Termination::Vertex(target) => v == *target,
            Termination::Predicate(holds) => holds(v),
        }
    }
}

/// Whether `price` gives the rank of every cost that `cost_fn` can return
/// for `attr`.
pub open spec fn priced_by<Attr, C: Cost, F: Fn(Attr) -> C>(
    cost_fn: F,
    price: spec_fn(Attr) -> int,
    attr: Attr,
) -> bool {
    forall|cost: C| #[trigger] cost_fn.ensures((attr,), cost) ==> cost.rank() == price(attr)
}

/// Whether `price` gives the rank of the cost of every attribute in `list`.
pub open spec fn prices_list<Attr, C: Cost, F: Fn(Attr) -> C>(
    cost_fn: F,
    price: spec_fn(Attr) -> int,
    list: Seq<(usize, Attr)>,
) -> bool {
    forall|i: int| 0 <= i < list.len() ==> priced_by(cost_fn, price, (#[trigger] list[i]).1)
}

/// Whether `cost_fn` can be called on every attribute in `list`.
pub open spec fn callable_on_list<Attr, C: Cost, F: Fn(Attr) -> C>(
    cost_fn: F,
    list: Seq<(usize, Attr)>,
) -> bool {
    forall|i: int| 0 <= i < list.len() ==> cost_fn.requires(((#[trigger] list[i]).1,))
}

/// Whether `cost_fn` can be called on every attribute in the graph.
pub open spec fn callable_on<Attr, C: Cost, F: Fn(Attr) -> C>(
    cost_fn: F,
    g: Adjacency<(usize, Attr)>,
) -> bool {
    forall|v: int| 0 <= v < g.lists.len() ==> callable_on_list(cost_fn, #[trigger] g.lists[v])
}

/// Whether `goal` and `price` state what `termination` and `cost_fn` compute
/// on the graph: `goal` holds where the termination condition does, and
/// `price` is the rank of the cost of each attribute in the graph.
pub open spec fn computes<Attr, C: Cost, F: Fn(Attr) -> C, P: Fn(usize) -> bool>(
    termination: Termination<P>,
    cost_fn: F,
    g: Adjacency<(usize, Attr)>,
    goal: spec_fn(usize) -> bool,
    price: spec_fn(Attr) -> int,
) -> bool {
    &&& termination.decided_by(goal, g.order())
    &&& forall|v: int| 0 <= v < g.lists.len() ==> prices_list(cost_fn, price, #[trigger] g.lists[v])
}

/// Whether the search accepts its arguments: `start` is a vertex of the
/// graph, and so is the target where the search is for a vertex.
pub open spec fn admits<Attr, P>(
    g: Adjacency<(usize, Attr)>,
    start: usize,
    termination: Termination<P>,
) -> bool {
    &&& start < g.order()
    &&& termination matches Termination::Vertex(target) ==> target < g.order()
}

/// Whether the search has to take turns: its arguments are accepted, and it
/// is not for `start` itself.
pub open spec fn takes_turns<Attr, P>(
    g: Adjacency<(usize, Attr)>,
    start: usize,
    termination: Termination<P>,
) -> bool {
    &&& admits(g, start, termination)
    &&& !(termination matches Termination::Vertex(target) && target == start)
}

/// Whether `found` is what the search returns where the machine ends with
/// `expected`: the path and the attributes, or `NoPathExists`.
pub open spec fn answers<Attr>(
    found: Result<(Vec<usize>, Vec<Attr>), SearchError>,
    expected: Option<(Seq<usize>, Seq<Attr>)>,
) -> bool {
    match expected {
        Some((way, labels)) => found matches Ok((path, attrs)) && path@ == way && attrs@ == labels,
        None => found matches Err(SearchError::NoPathExists),
    }
}

/// Whether two states agree but for the ranks in the frontier: the same
/// flags, the same discoverers, and the same vertices waiting in the same
/// order.
pub open spec fn same_but_ranks(a: SearchState, b: SearchState) -> bool {
    &&& a.visited == b.visited
    &&& a.predecessor == b.predecessor
    &&& a.frontier.len() == b.frontier.len()
    &&& forall|i: int|
        0 <= i < a.frontier.len() ==> (#[trigger] a.frontier[i]).0 == b.frontier[i].0
}

/// Whether the frontier entry `entry` was made for a record of `list`: it
/// waits for the vertex the record leads to, with a cost that `cost_fn` can
/// give to the record's attribute.
pub open spec fn made_for<Attr, C: Cost, F: Fn(Attr) -> C>(
    cost_fn: F,
    list: Seq<(usize, Attr)>,
    entry: (usize, C),
) -> bool {
    exists|k: int|
        0 <= k < list.len() && (#[trigger] list[k]).0 == entry.0 && cost_fn.ensures(
            (list[k].1,),
            entry.1,
        )
}

/// The frontier with each cost replaced by its rank.
pub open spec fn ranks<C: Cost>(frontier: Seq<(usize, C)>) -> Seq<(usize, int)> {
    Seq::new(frontier.len(), |i: int| (frontier[i].0, frontier[i].1.rank()))
}

/// The state that the three vectors of a running search stand for.
pub open spec fn state_of<C: Cost>(
    frontier: Seq<(usize, C)>,
    visited: Seq<bool>,
    predecessor: Seq<usize>,
) -> SearchState {
    SearchState { frontier: ranks(frontier), visited, predecessor }
}

/// Returns the position of the frontier entry whose turn is next.
pub fn least_index<C: Cost>(frontier: &Vec<(usize, C)>) -> (m: usize)
    requires
        frontier.len() > 0,
    ensures
        is_least(ranks(frontier@), m as int),
        m as int == least(ranks(frontier@)),
{
    let mut m: usize = 0;
    let mut j: usize = 1;
    while j < frontier.len()
        invariant
            0 <= m < j <= frontier.len(),
            forall|i: int| 0 <= i < j ==> frontier@[m as int].1.rank() <= (
            #[trigger] frontier@[i]).1.rank(),
            forall|i: int| 0 <= i < m ==> frontier@[m as int].1.rank() < (
            #[trigger] frontier@[i]).1.rank(),
        decreases frontier.len() - j,
    {
        if frontier[j].1.precedes(&frontier[m].1) {
            m = j;
        }
        j += 1;
    }
    proof {
        let r = ranks(frontier@);
        assert forall|i: int| 0 <= i < r.len() implies r[m as int].1 <= (#[trigger] r[i]).1 by {
            assert(frontier@[m as int].1.rank() <= frontier@[i].1.rank());
        }
        assert forall|i: int| 0 <= i < m implies r[m as int].1 < (#[trigger] r[i]).1 by {
            assert(frontier@[m as int].1.rank() < frontier@[i].1.rank());
        }
        lemma_least_exists(r);
        lemma_least_unique(r, m as int, least(r));
    }
    m
}

/// Lets `v` discover its undiscovered neighbors in the order of `list`: each
/// is marked, gets `v` as its discoverer, and joins the frontier with the
/// cost of the edge from `v`.
///
/// Which vertices are discovered does not depend on the costs. The costs
/// are what `cost_fn` returns; for every price that states them the new
/// state is the relaxed one.
pub fn relax<Attr: Copy, C: Cost, F: Fn(Attr) -> C>(
    list: &Vec<(usize, Attr)>,
    v: usize,
    cost_fn: &F,
    visited: &mut Vec<bool>,
    predecessor: &mut Vec<usize>,
    frontier: &mut Vec<(usize, C)>,
)
    requires
        old(predecessor).len() == old(visited).len(),
        forall|i: int| 0 <= i < list.len() ==> (#[trigger] list@[i]).0 < old(visited).len(),
        callable_on_list(*cost_fn, list@),
    ensures
        final(visited).len() == old(visited).len(),
        final(predecessor).len() == old(predecessor).len(),
        forall|price: spec_fn(Attr) -> int|
            same_but_ranks(
                state_of(final(frontier)@, final(visited)@, final(predecessor)@),
                #[trigger] state_of(old(frontier)@, old(visited)@, old(predecessor)@).relaxed(
                    v,
                    list@,
                    price,
                ),
            ),
        final(frontier)@.len() >= old(frontier)@.len(),
        forall|i: int|
            0 <= i < old(frontier)@.len() ==> #[trigger] final(frontier)@[i] == old(frontier)@[i],
        forall|i: int|
            old(frontier)@.len() <= i < final(frontier)@.len() ==> made_for(
                *cost_fn,
                list@,
                #[trigger] final(frontier)@[i],
            ),
        forall|price: spec_fn(Attr) -> int| #[trigger]
            prices_list(*cost_fn, price, list@) ==> state_of(
                final(frontier)@,
                final(visited)@,
                final(predecessor)@,
            ) == state_of(old(frontier)@, old(visited)@, old(predecessor)@).relaxed(
                v,
                list@,
                price,
            ),
{
    let ghost before = state_of(frontier@, visited@, predecessor@);
    let mut i: usize = 0;
    proof {
        assert(list@.take(0).len() == 0);
    }
    while i < list.len()
        invariant
            i <= list.len(),
            visited.len() == old(visited).len(),
            predecessor.len() == visited.len(),
            forall|k: int| 0 <= k < list.len() ==> (#[trigger] list@[k]).0 < visited.len(),
            callable_on_list(*cost_fn, list@),
            before == state_of(old(frontier)@, old(visited)@, old(predecessor)@),
            forall|price: spec_fn(Attr) -> int|
                same_but_ranks(
                    state_of(frontier@, visited@, predecessor@),
                    #[trigger] before.relaxed(v, list@.take(i as int), price),
                ),
            frontier@.len() >= old(frontier)@.len(),
            forall|j: int| 0 <= j < old(frontier)@.len() ==> #[trigger] frontier@[j] == old(
                frontier,
            )@[j],
            forall|j: int|
                old(frontier)@.len() <= j < frontier@.len() ==> made_for(
                    *cost_fn,
                    list@,
                    #[trigger] frontier@[j],
                ),
            forall|price: spec_fn(Attr) -> int| #[trigger]
                prices_list(*cost_fn, price, list@) ==> state_of(
                    frontier@,
                    visited@,
                    predecessor@,
                ) == before.relaxed(v, list@.take(i as int), price),
        decreases list.len() - i,
    {
        let (w, attr) = list[i];
        let ghost mid = state_of(frontier@, visited@, predecessor@);
        let ghost waiting = frontier@;
        proof {
            assert(list@.take(i + 1).drop_last() =~= list@.take(i as int));
            assert(list@.take(i + 1).last() == list@[i as int]);
            assert(cost_fn.requires((list@[i as int].1,)));
        }
        if !visited[w] {
            visited[w] = true;
            predecessor[w] = v;
            let cost = cost_fn(attr);
            frontier.push((w, cost));
            proof {
                let next = state_of(frontier@, visited@, predecessor@);
                assert(ranks(frontier@) =~= mid.frontier.push((w, cost.rank())));
                assert forall|price: spec_fn(Attr) -> int|
                    same_but_ranks(
                        next,
                        #[trigger] before.relaxed(v, list@.take(i + 1), price),
                    ) by {
                    let earlier = before.relaxed(v, list@.take(i as int), price);
                    assert(same_but_ranks(mid, earlier));
                    let later = earlier.discover(v, w, price(attr));
                    assert(before.relaxed(v, list@.take(i + 1), price) == later);
                    assert forall|j: int| 0 <= j < next.frontier.len() implies (
                    #[trigger] next.frontier[j]).0 == later.frontier[j].0 by {
                        if j < mid.frontier.len() {
                            assert(mid.frontier[j].0 == earlier.frontier[j].0);
                        }
                    }
                }
                assert forall|j: int| old(frontier)@.len() <= j < frontier@.len() implies made_for(
                    *cost_fn,
                    list@,
                    #[trigger] frontier@[j],
                ) by {
                    if j < waiting.len() {
                        assert(frontier@[j] == waiting[j]);
                    } else {
                        assert(list@[i as int].0 == w);
                    }
                }
                assert forall|price: spec_fn(Attr) -> int| #[trigger]
                    prices_list(*cost_fn, price, list@) implies next == before.relaxed(
                    v,
                    list@.take(i + 1),
                    price,
                ) by {
                    assert(priced_by(*cost_fn, price, list@[i as int].1));
                    assert(cost.rank() == price(attr));
                }
            }
        } else {
            proof {
                assert forall|price: spec_fn(Attr) -> int|
                    same_but_ranks(
                        mid,
                        #[trigger] before.relaxed(v, list@.take(i + 1), price),
                    ) by {
                    let earlier = before.relaxed(v, list@.take(i as int), price);
                    assert(same_but_ranks(mid, earlier));
                    assert(before.relaxed(v, list@.take(i + 1), price) == earlier);
                }
            }
        }
        i += 1;
    }
    proof {
        assert(list@.take(i as int) =~= list@);
    }
}

/// Returns the elements of `items` in the opposite order.
pub fn reversed<T: Copy>(items: &Vec<T>) -> (out: Vec<T>)
    ensures
        out@ == items@.reverse(),
{
    let mut out: Vec<T> = Vec::new();
    let mut i: usize = items.len();
    while i > 0
        invariant
            i <= items.len(),
            out.len() == items.len() - i,
            forall|k: int| 0 <= k < out.len() ==> out@[k] == items@[items.len() - 1 - k],
        decreases i,
    {
        i -= 1;
        out.push(items[i]);
    }
    proof {
        assert(out@ =~= items@.reverse());
    }
    out
}

/// Walks the discoverers back from `finish` to `start` and returns the way
/// in the order from `start`, with the attribute of the first edge from each
/// vertex to the next.
///
/// Fails with `NoPathExists` where a vertex on the way has no edge from its
/// discoverer; in a tree of discoverers that does not happen.
fn reconstruct<Attr: Copy>(
    graph: &EdgeAttributedUndirectedGraph<Attr>,
    predecessor: &Vec<usize>,
    start: usize,
    finish: usize,
    Ghost(state): Ghost<SearchState>,
    Ghost(stamp): Ghost<Seq<nat>>,
) -> (found: Result<(Vec<usize>, Vec<Attr>), SearchError>)
    requires
        tree_ok(graph@, start, state, stamp),
        state.predecessor == predecessor@,
        finish < graph@.order(),
        state.visited[finish as int],
    ensures
        found matches Ok((path, attrs)) && path@ == route(
            predecessor@,
            start,
            finish,
            graph@.order(),
        ) && attrs@ == attributes_along(graph@, path@),
{
    let ghost n = graph@.order();
    let ghost whole = route(predecessor@, start, finish, n);
    let mut back: Vec<usize> = Vec::new();
    let mut back_attrs: Vec<Attr> = Vec::new();
    let mut current = finish;
    proof {
        lemma_route(graph@, start, state, stamp, finish, n);
        assert(seq![current] + back@.reverse() =~= seq![current]);
        assert(attributes_along(graph@, seq![current]) =~= back_attrs@.reverse());
        assert(route(predecessor@, start, current, n) + back@.reverse() =~= whole);
    }
    while current != start
        invariant
            n == graph@.order(),
            tree_ok(graph@, start, state, stamp),
            state.predecessor == predecessor@,
            current < n,
            state.visited[current as int],
            whole == route(predecessor@, start, current, n) + back@.reverse(),
            back_attrs@.reverse() == attributes_along(graph@, seq![current] + back@.reverse()),
        decreases stamp[current as int],
    {
        proof {
            lemma_route_step(graph@, start, state, stamp, current);
        }
        let discoverer = predecessor[current];
        let (_, attribute) = graph.has_edge(discoverer, current);
        let ghost tail = seq![current] + back@.reverse();
        match attribute {
            Some(attr) => {
                back_attrs.push(attr);
            },
            None => {
                return Err(SearchError::NoPathExists);
            },
        }
        back.push(current);
        proof {
            assert(back@.reverse() =~= tail);
            let longer = seq![discoverer] + tail;
            assert(longer =~= seq![discoverer] + back@.reverse());
            assert(route(predecessor@, start, discoverer, n) + back@.reverse() =~= whole);
            let old_attrs = attributes_along(graph@, tail);
            let new_attrs = attributes_along(graph@, longer);
            assert(new_attrs =~= seq![attribute->0] + old_attrs) by {
                assert(longer[0] == discoverer);
                assert(longer[1] == current);
                assert forall|i: int| 1 <= i < new_attrs.len() implies new_attrs[i] == old_attrs[i
                    - 1] by {
                    assert(longer[i] == tail[i - 1]);
                    assert(longer[i + 1] == tail[i]);
                }
            }
            assert(back_attrs@.reverse() =~= seq![attribute->0] + old_attrs);
        }
        current = discoverer;
    }
    back.push(start);
    proof {
        assert(route(predecessor@, start, start, n) =~= seq![start]);
        assert(back@.reverse() =~= whole);
    }
    let path = reversed(&back);
    let attrs = reversed(&back_attrs);
    Ok((path, attrs))
}

/// Returns `order` flags, none of them set.
fn no_flags(order: usize) -> (flags: Vec<bool>)
    ensures
        flags@ == Seq::new(order as nat, |v: int| false),
{
    let mut flags: Vec<bool> = Vec::new();
    let mut i: usize = 0;
    while i < order
        invariant
            i <= order,
            flags.len() == i,
            forall|k: int| 0 <= k < i ==> !flags@[k],
        decreases order - i,
    {
        flags.push(false);
        i += 1;
    }
    proof {
        assert(flags@ =~= Seq::new(order as nat, |v: int| false));
    }
    flags
}

/// Returns the table in which every vertex below `order` stands for itself.
fn own_discoverers(order: usize) -> (table: Vec<usize>)
    ensures
        table@ == Seq::new(order as nat, |v: int| v as usize),
{
    let mut table: Vec<usize> = Vec::new();
    let mut i: usize = 0;
    while i < order
        invariant
            i <= order,
            table.len() == i,
            forall|k: int| 0 <= k < i ==> table@[k] == k,
        decreases order - i,
    {
        table.push(i);
        i += 1;
    }
    proof {
        assert(table@ =~= Seq::new(order as nat, |v: int| v as usize));
    }
    table
}

/// Searches `graph` from `start` until `termination` is met, and returns the
/// path from `start` to the vertex at which the search stopped together with
/// the attributes of the edges along it.
///
/// The search gives `start` the first turn. A vertex at its turn ends the
/// search if it meets `termination`; otherwise each of its neighbors that
/// was not discovered yet is discovered, in list order, and waits with the
/// cost that `cost_fn` gives to the attribute of the edge between the two.
/// The next turn goes to the waiting vertex of least cost, and among several
/// of least cost to the one that has waited longest. The path follows the
/// discoverers back from the last vertex to `start`.
///
/// Where the search takes turns, `termination` and `cost_fn` have to be
/// functions on this graph: some goal and price state what they compute. For
/// every such goal and price the result is that of [`search`]. A search for
/// `start` itself, or with arguments that are not accepted, calls neither.
pub fn find_shortest_path<Attr: Copy, C: Cost, F: Fn(Attr) -> C, P: Fn(usize) -> bool>(
    graph: &EdgeAttributedUndirectedGraph<Attr>,
    start: usize,
    termination: Termination<P>,
    cost_fn: F,
) -> (found: Result<(Vec<usize>, Vec<Attr>), SearchError>)
    requires
        graph.well_formed(),
        takes_turns(graph@, start, termination) ==> {
            &&& termination.callable(graph@.order())
            &&& callable_on(cost_fn, graph@)
            &&& exists|goal: spec_fn(usize) -> bool, price: spec_fn(Attr) -> int|
                computes(termination, cost_fn, graph@, goal, price)
        },
    ensures
        !admits(graph@, start, termination) <==> found matches Err(SearchError::InvalidArgument),
        forall|goal: spec_fn(usize) -> bool, price: spec_fn(Attr) -> int|
            admits(graph@, start, termination) && #[trigger] computes(
                termination,
                cost_fn,
                graph@,
                goal,
                price,
            ) ==> {
                &&& answers(found, search(graph@, start, goal, price))
                &&& found is Ok <==> exists|v: usize| #[trigger]
                    reachable(graph@, start, v) && goal(v)
            },
        admits(graph@, start, termination) && termination.accepts(start) ==> (found matches Ok(
            (path, attrs),
        ) && path@ == seq![start] && attrs@.len() == 0),
        found matches Ok((path, attrs)) ==> {
            &&& is_walk(graph@, path@)
            &&& path@[0] == start
            &&& termination.accepts(path@.last())
            &&& path@.no_duplicates()
            &&& path@.len() <= graph@.order()
            &&& attrs@.len() + 1 == path@.len()
            &&& forall|i: int|
                0 <= i < attrs@.len() ==> graph@.first_link(path@[i], path@[i + 1]) == Some(
                    (path@[i + 1], #[trigger] attrs@[i]),
                )
        },
{
    let order = graph.order();
    if start >= order {
        return Err(SearchError::InvalidArgument);
    }
    match &termination {
        Termination::Vertex(target) => {
            if *target >= order {
                return Err(SearchError::InvalidArgument);
            }
            if *target == start {
                let path: Vec<usize> = vec![start];
                let attrs: Vec<Attr> = Vec::new();
                proof {
                    assert(path@ =~= seq![start]);
                    assert(attrs@ =~= Seq::<Attr>::empty());
                    assert forall|goal: spec_fn(usize) -> bool, price: spec_fn(Attr) -> int|
                        #[trigger] computes(
                            termination,
                            cost_fn,
                            graph@,
                            goal,
                            price,
                        ) implies search(graph@, start, goal, price) == Some((path@, attrs@)) && (
                    exists|v: usize| #[trigger] reachable(graph@, start, v) && goal(v)) by {
                        assert(termination.decided_at(goal, start));
                        law_start_meets_goal(graph@, start, goal, price);
                        law_found_iff_reachable(graph@, start, goal, price);
                    }
                }
                return Ok((path, attrs));
            }
        },
        Termination::Predicate(_) => {},
    }
    let ghost (a_goal, a_price): (spec_fn(usize) -> bool, spec_fn(Attr) -> int) = choose|
        goal: spec_fn(usize) -> bool,
        price: spec_fn(Attr) -> int,
    | computes(termination, cost_fn, graph@, goal, price);
    let mut visited = no_flags(order);
    visited[start] = true;
    let mut predecessor = own_discoverers(order);
    let mut frontier: Vec<(usize, C)> = Vec::new();
    frontier.push((start, C::zero()));
    let ghost first = SearchState::initial(order as nat, start);
    let ghost mut stamp: Seq<nat> = Seq::new(order as nat, |v: int| 0nat);
    proof {
        lemma_initial_ok(graph@, start, a_goal);
        assert(ranks(frontier@) =~= first.frontier);
        assert(visited@ =~= first.visited);
    }
    while frontier.len() > 0
        invariant
            order == graph@.order(),
            graph.well_formed(),
            start < order,
            termination.callable(order as nat),
            callable_on(cost_fn, graph@),
            computes(termination, cost_fn, graph@, a_goal, a_price),
            first == SearchState::initial(order as nat, start),
            visited.len() == order,
            predecessor.len() == order,
            tree_ok(graph@, start, state_of(frontier@, visited@, predecessor@), stamp),
            forall|goal: spec_fn(usize) -> bool, price: spec_fn(Attr) -> int| #[trigger]
                computes(termination, cost_fn, graph@, goal, price) ==> outcome(
                    graph@,
                    state_of(frontier@, visited@, predecessor@),
                    goal,
                    price,
                ) == outcome(graph@, first, goal, price),
        decreases state_of(frontier@, visited@, predecessor@).effort(),
    {
        let ghost state = state_of(frontier@, visited@, predecessor@);
        let m = least_index(&frontier);
        let entry = frontier.remove(m);
        let v = entry.0;
        proof {
            lemma_popped_tree(graph@, start, state, stamp, m as int);
            assert(ranks(frontier@) =~= state.frontier.remove(m as int));
            assert(v == state.frontier[m as int].0);
        }
        if termination.reached(v) {
            let found = reconstruct(graph, &predecessor, start, v, Ghost(state), Ghost(stamp));
            proof {
                lemma_route(graph@, start, state, stamp, v, order as nat);
                assert forall|goal: spec_fn(usize) -> bool, price: spec_fn(Attr) -> int|
                    #[trigger] computes(termination, cost_fn, graph@, goal, price) implies answers(
                    found,
                    search(graph@, start, goal, price),
                ) && (exists|u: usize| #[trigger] reachable(graph@, start, u) && goal(u)) by {
                    assert(termination.decided_at(goal, v));
                    assert(goal(v));
                    assert(outcome(graph@, state, goal, price) == Some((v, predecessor@)));
                    law_found_iff_reachable(graph@, start, goal, price);
                }
                law_found_path_is_walk(graph@, start, a_goal, a_price);
                if termination.accepts(start) {
                    assert(termination.decided_at(a_goal, start));
                    assert(a_goal(start));
                    law_start_meets_goal(graph@, start, a_goal, a_price);
                }
            }
            return found;
        }
        let list = graph.neighbors_of(v);
        proof {
            let after = lemma_turn_tree(graph@, start, a_price, state, stamp);
            stamp = after;
            assert(callable_on_list(cost_fn, graph@.lists[v as int]));
        }
        relax(list, v, &cost_fn, &mut visited, &mut predecessor, &mut frontier);
        proof {
            let next = state_of(frontier@, visited@, predecessor@);
            assert(prices_list(cost_fn, a_price, graph@.lists[v as int]));
            assert(next == next_state(graph@, state, a_price));
            assert forall|goal: spec_fn(usize) -> bool, price: spec_fn(Attr) -> int|
                #[trigger] computes(termination, cost_fn, graph@, goal, price) implies outcome(
                graph@,
                next,
                goal,
                price,
            ) == outcome(graph@, first, goal, price) by {
                assert(termination.decided_at(goal, v));
                assert(!goal(v));
                assert(prices_list(cost_fn, price, graph@.lists[v as int]));
                assert(next == next_state(graph@, state, price));
                lemma_turn_outcome(graph@, state, goal, price);
            }
        }
    }
    proof {
        let state = state_of(frontier@, visited@, predecessor@);
        assert(state.frontier.len() == 0);
        assert forall|goal: spec_fn(usize) -> bool, price: spec_fn(Attr) -> int|
            #[trigger] computes(termination, cost_fn, graph@, goal, price) implies search(
            graph@,
            start,
            goal,
            price,
        ) is None && !(exists|u: usize| #[trigger] reachable(graph@, start, u) && goal(u)) by {
            assert(outcome(graph@, state, goal, price) is None);
            law_found_iff_reachable(graph@, start, goal, price);
        }
        if termination.accepts(start) {
            assert(termination.decided_at(a_goal, start));
            assert(a_goal(start));
            law_start_meets_goal(graph@, start, a_goal, a_price);
        }
    }
    Err(SearchError::NoPathExists)
}

} // verus!
