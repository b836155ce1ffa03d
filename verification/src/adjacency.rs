//! Adjacency lists as mathematical sequences.
//!
//! Every graph container of this crate keeps one list of records per vertex.
//! This module holds the model those containers are specified against: what a
//! record is, what it means for a list to lead to a vertex, how lists change
//! when edges come and go, and the invariants that make the edge counter safe
//! to decrement.

use vstd::prelude::*;

verus! {

/// A record in a vertex's adjacency list.
///
/// A record names the vertex it leads to; an attributed record carries the
/// edge's attribute as well.
pub trait Entry: Sized {
    /// The vertex this record leads to.
    spec fn target(self) -> usize;

    /// The record that the far endpoint keeps for the same undirected edge,
    /// where `owner` is the vertex whose list holds `self`.
    spec fn mirrored(self, owner: usize) -> Self;

    /// Returns the vertex this record leads to.
    fn neighbor(&self) -> (w: usize)
        ensures
            w == self.target(),
    ;

    /// A mirrored record leads back to the owner of the record it mirrors,
    /// and mirroring it again from the far endpoint gives that record back.
    proof fn mirrored_leads_back(self, owner: usize)
        ensures
            self.mirrored(owner).target() == owner,
            self.mirrored(owner).mirrored(self.target()) == self,
    ;
}

impl Entry for usize {
    open spec fn target(self) -> usize {
        self
    }

    open spec fn mirrored(self, owner: usize) -> usize {
        owner
    }

    fn neighbor(&self) -> (w: usize) {
        *self
    }

    proof fn mirrored_leads_back(self, owner: usize) {
    }
}

impl<Attr> Entry for (usize, Attr) {
    open spec fn target(self) -> usize {
        self.0
    }

    open spec fn mirrored(self, owner: usize) -> (usize, Attr) {
        (owner, self.1)
    }

    fn neighbor(&self) -> (w: usize) {
        self.0
    }

    proof fn mirrored_leads_back(self, owner: usize) {
    }
}

/// Whether some record of `list` leads to `w`.
pub open spec fn leads_to<E: Entry>(list: Seq<E>, w: usize) -> bool {
    exists|i: int| 0 <= i < list.len() && (#[trigger] list[i]).target() == w
}

/// Whether `i` is the position of the first record of `list` that leads to `w`.
pub open spec fn is_first_toward<E: Entry>(list: Seq<E>, w: usize, i: int) -> bool {
    &&& 0 <= i < list.len()
    &&& list[i].target() == w
    &&& forall|j: int| 0 <= j < i ==> (#[trigger] list[j]).target() != w
}

/// The first record of `list` that leads to `w`, if there is one.
pub open spec fn first_toward<E: Entry>(list: Seq<E>, w: usize) -> Option<E> {
    if leads_to(list, w) {
        Some(list[choose|i: int| is_first_toward(list, w, i)])
    } else {
        None
    }
}

/// The attribute carried by a record, if there is a record.
pub open spec fn attribute_of<Attr>(record: Option<(usize, Attr)>) -> Option<Attr> {
    match record {
        Some(r) => Some(r.1),
        None => None,
    }
}

/// `list` with every record that leads to `w` taken out; the others keep
/// their order.
pub open spec fn without<E: Entry>(list: Seq<E>, w: usize) -> Seq<E> {
    list.filter(|e: E| e.target() != w)
}

/// The adjacency lists of all vertices as a sequence of sequences.
pub open spec fn lists_of<E>(lists: Vec<Vec<E>>) -> Seq<Seq<E>> {
    lists@.map_values(|list: Vec<E>| list@)
}

/// Two positions that both are the first toward `w` are the same position.
pub proof fn lemma_first_toward_unique<E: Entry>(list: Seq<E>, w: usize, i: int, j: int)
    requires
        is_first_toward(list, w, i),
        is_first_toward(list, w, j),
    ensures
        i == j,
{
    if i < j {
        assert(list[i].target() != w);
    } else if j < i {
        assert(list[j].target() != w);
    }
}

/// The first record toward `w` is the one at the first matching position.
pub proof fn lemma_first_toward_at<E: Entry>(list: Seq<E>, w: usize, i: int)
    requires
        is_first_toward(list, w, i),
    ensures
        leads_to(list, w),
        first_toward(list, w) == Some(list[i]),
{
    let k = choose|k: int| is_first_toward(list, w, k);
    lemma_first_toward_unique(list, w, i, k);
}

/// A list that leads to `w` has a first record that does.
pub proof fn lemma_first_toward_exists<E: Entry>(list: Seq<E>, w: usize)
    requires
        leads_to(list, w),
    ensures
        exists|i: int| is_first_toward(list, w, i),
    decreases list.len(),
{
    let k = choose|k: int| 0 <= k < list.len() && (#[trigger] list[k]).target() == w;
    let head = list.take(k);
    if leads_to(head, w) {
        lemma_first_toward_exists(head, w);
        let i = choose|i: int| is_first_toward(head, w, i);
        assert(head[i] == list[i]);
        assert forall|j: int| 0 <= j < i implies (#[trigger] list[j]).target() != w by {
            assert(head[j] == list[j]);
        }
        assert(is_first_toward(list, w, i));
    } else {
        assert forall|j: int| 0 <= j < k implies (#[trigger] list[j]).target() != w by {
            assert(head[j] == list[j]);
        }
        assert(is_first_toward(list, w, k));
    }
}

/// What is left after taking out the records toward `w`: no record toward
/// `w`, every other record of the list, and nothing else.
pub proof fn lemma_without<E: Entry>(list: Seq<E>, w: usize)
    ensures
        !leads_to(without(list, w), w),
        without(list, w).len() <= list.len(),
        forall|e: E|
            #[trigger] without(list, w).contains(e) <==> list.contains(e) && e.target() != w,
        forall|u: usize| u != w ==> first_toward(without(list, w), u) == first_toward(list, u),
    decreases list.len(),
{
    reveal(Seq::filter);
    let keep = |e: E| e.target() != w;
    let out = without(list, w);
    if list.len() == 0 {
        assert(out =~= list);
        assert forall|u: usize| u != w implies first_toward(out, u) == first_toward(list, u) by {}
    } else {
        let front = list.drop_last();
        let last = list.last();
        let sub = without(front, w);
        lemma_without(front, w);
        assert(out == if keep(last) { sub.push(last) } else { sub });
        assert forall|e: E| #[trigger] out.contains(e) <==> list.contains(e) && e.target() != w by {
            if out.contains(e) {
                let i = choose|i: int| 0 <= i < out.len() && out[i] == e;
                if i < sub.len() {
                    assert(sub[i] == e);
                    assert(sub.contains(e));
                    assert(front.contains(e));
                    let k = choose|k: int| 0 <= k < front.len() && front[k] == e;
                    assert(list[k] == e);
                } else {
                    assert(e == last);
                    assert(list[list.len() - 1] == e);
                }
            }
            if list.contains(e) && e.target() != w {
                let k = choose|k: int| 0 <= k < list.len() && list[k] == e;
                if k < front.len() {
                    assert(front[k] == e);
                    assert(front.contains(e));
                    assert(sub.contains(e));
                    let i = choose|i: int| 0 <= i < sub.len() && sub[i] == e;
                    assert(out[i] == e);
                } else {
                    assert(out[out.len() - 1] == e);
                }
            }
        }
        if leads_to(out, w) {
            let i = choose|i: int| 0 <= i < out.len() && (#[trigger] out[i]).target() == w;
            assert(out.contains(out[i]));
        }
        assert forall|u: usize| u != w implies first_toward(out, u) == first_toward(list, u) by {
            lemma_without_keeps_first(list, w, u);
        }
    }
}

/// Taking out the records toward `w` leaves the first record toward any
/// other vertex `u` the same.
pub proof fn lemma_without_keeps_first<E: Entry>(list: Seq<E>, w: usize, u: usize)
    requires
        u != w,
    ensures
        first_toward(without(list, w), u) == first_toward(list, u),
    decreases list.len(),
{
    reveal(Seq::filter);
    let keep = |e: E| e.target() != w;
    let out = without(list, w);
    if list.len() == 0 {
        assert(out =~= list);
    } else {
        let front = list.drop_last();
        let last = list.last();
        let sub = without(front, w);
        lemma_without_keeps_first(front, w, u);
        assert(out == if keep(last) { sub.push(last) } else { sub });
        lemma_first_toward_push(front, last, u);
        assert(front.push(last) =~= list);
        if keep(last) {
            lemma_first_toward_push(sub, last, u);
        }
    }
}

/// Appending a record changes the first record toward `u` only where the
/// list did not lead to `u` before and the new record does.
pub proof fn lemma_first_toward_push<E: Entry>(list: Seq<E>, e: E, u: usize)
    ensures
        first_toward(list.push(e), u) == if leads_to(list, u) {
            first_toward(list, u)
        } else if e.target() == u {
            Some(e)
        } else {
            None
        },
        leads_to(list.push(e), u) <==> leads_to(list, u) || e.target() == u,
{
    let longer = list.push(e);
    if leads_to(list, u) {
        lemma_first_toward_exists(list, u);
        let i = choose|i: int| is_first_toward(list, u, i);
        assert(longer[i] == list[i]);
        assert forall|j: int| 0 <= j < i implies (#[trigger] longer[j]).target() != u by {
            assert(longer[j] == list[j]);
        }
        assert(is_first_toward(longer, u, i));
        lemma_first_toward_at(longer, u, i);
        lemma_first_toward_at(list, u, i);
    } else if e.target() == u {
        let n = list.len() as int;
        assert(longer[n] == e);
        assert forall|j: int| 0 <= j < n implies (#[trigger] longer[j]).target() != u by {
            assert(longer[j] == list[j]);
        }
        assert(is_first_toward(longer, u, n));
        lemma_first_toward_at(longer, u, n);
    } else {
        if leads_to(longer, u) {
            let i = choose|i: int| 0 <= i < longer.len() && (#[trigger] longer[i]).target() == u;
            if i < list.len() {
                assert(list[i] == longer[i]);
            }
        }
    }
}

/// Whether the record `e` in the list of vertex `owner` is counted toward the
/// number of edges: every record of a directed graph is, and of an undirected
/// graph the one that the lower endpoint keeps (`forward_only`).
pub open spec fn counts<E: Entry>(owner: int, e: E, forward_only: bool) -> bool {
    !forward_only || e.target() >= owner
}

/// The number of counted records in the list of vertex `owner`.
pub open spec fn weight<E: Entry>(list: Seq<E>, owner: int, forward_only: bool) -> nat
    decreases list.len(),
{
    if list.len() == 0 {
        0
    } else {
        weight(list.drop_last(), owner, forward_only) + if counts(
            owner,
            list.last(),
            forward_only,
        ) {
            1nat
        } else {
            0nat
        }
    }
}

/// The number of counted records in the lists of the first `n` vertices.
pub open spec fn total<E: Entry>(lists: Seq<Seq<E>>, n: nat, forward_only: bool) -> nat
    decreases n,
{
    if n == 0 {
        0
    } else {
        total(lists, (n - 1) as nat, forward_only) + weight(
            lists[n - 1],
            n - 1,
            forward_only,
        )
    }
}

/// How many of `lists` lead to `v`.
pub open spec fn sources<E: Entry>(lists: Seq<Seq<E>>, v: usize) -> nat {
    lists.filter(|list: Seq<E>| leads_to(list, v)).len()
}

/// `order` lists with no record in them.
pub open spec fn no_records<E>(order: nat) -> Seq<Seq<E>> {
    Seq::new(order, |v: int| Seq::<E>::empty())
}

/// The state of a graph container: the adjacency list of every vertex, and
/// the edge counter.
pub struct Adjacency<E> {
    /// One list per vertex, in the order in which its records were added.
    pub lists: Seq<Seq<E>>,
    /// Edges added minus edges deleted.
    pub edges: nat,
}

impl<E: Entry> Adjacency<E> {
    /// The graph of `order` vertices without edges.
    pub open spec fn empty(order: nat) -> Self {
        Adjacency { lists: no_records(order), edges: 0 }
    }

    /// The number of vertices.
    pub open spec fn order(self) -> nat {
        self.lists.len()
    }

    /// Every vertex is a `usize`, and every record leads to a vertex of the
    /// graph.
    pub open spec fn in_range(self) -> bool {
        &&& self.lists.len() <= usize::MAX
        &&& forall|v: int, i: int|
            0 <= v < self.lists.len() && 0 <= i < self.lists[v].len() ==> (
            #[trigger] self.lists[v][i]).target() < self.lists.len()
    }

    /// Every record that leads from `v` to another vertex has its mirror in
    /// that vertex's list.
    pub open spec fn symmetric(self) -> bool {
        forall|v: int, i: int|
            0 <= v < self.lists.len() && 0 <= i < self.lists[v].len() && (
            #[trigger] self.lists[v][i]).target() != v
                ==> self.lists[self.lists[v][i].target() as int].contains(
                self.lists[v][i].mirrored(v as usize),
            )
    }

    /// Whether the first record from `v` toward `w` is the mirror of the
    /// first record from `w` toward `v`; neither list leads to the other
    /// vertex where one does not.
    pub open spec fn first_mirrors(self, v: usize, w: usize) -> bool {
        match first_toward(self.lists[w as int], v) {
            Some(r) => first_toward(self.lists[v as int], w) == Some(r.mirrored(w)),
            None => first_toward(self.lists[v as int], w) is None,
        }
    }

    /// Between any two vertices the first record at one end is the mirror
    /// of the first record at the other: a lookup gives the same edge from
    /// both ends.
    pub open spec fn first_symmetric(self) -> bool {
        forall|v: usize, w: usize|
            v < self.lists.len() && w < self.lists.len() && v != w
                ==> #[trigger] self.first_mirrors(v, w)
    }

    /// The invariant of a directed container: records in range, and a
    /// counter that is at least the number of records.
    pub open spec fn directed_ok(self) -> bool {
        &&& self.in_range()
        &&& total(self.lists, self.lists.len(), false) <= self.edges
    }

    /// The invariant of an undirected container: records in range, each
    /// mirrored at the far endpoint, the first record between two vertices
    /// the same edge at both ends, and a counter that is at least the number
    /// of records kept by the lower endpoint of their edge.
    pub open spec fn undirected_ok(self) -> bool {
        &&& self.in_range()
        &&& self.symmetric()
        &&& self.first_symmetric()
        &&& total(self.lists, self.lists.len(), true) <= self.edges
    }

    /// Whether the list of `v` leads to `w`.
    pub open spec fn linked(self, v: usize, w: usize) -> bool {
        leads_to(self.lists[v as int], w)
    }

    /// The first record in the list of `v` that leads to `w`.
    pub open spec fn first_link(self, v: usize, w: usize) -> Option<E> {
        first_toward(self.lists[v as int], w)
    }

    /// The number of records in the list of `v`.
    pub open spec fn degree(self, v: usize) -> nat {
        self.lists[v as int].len()
    }

    /// The number of vertices whose list leads to `v`.
    pub open spec fn indegree(self, v: usize) -> nat {
        sources(self.lists, v)
    }

    /// The state after `e` is appended to the list of `v`.
    pub open spec fn with_arc(self, v: usize, e: E) -> Self {
        Adjacency {
            lists: self.lists.update(v as int, self.lists[v as int].push(e)),
            edges: self.edges + 1,
        }
    }

    /// The state after an undirected edge is added: `e` is appended to the
    /// list of `v`, and its mirror to the list of the vertex it leads to. A
    /// self-loop is stored once.
    pub open spec fn with_edge(self, v: usize, e: E) -> Self {
        let w = e.target();
        let near = self.lists.update(v as int, self.lists[v as int].push(e));
        Adjacency {
            lists: if w == v {
                near
            } else {
                near.update(w as int, near[w as int].push(e.mirrored(v)))
            },
            edges: self.edges + 1,
        }
    }

    /// The state after every record from `v` to `w` is taken out.
    pub open spec fn without_arc(self, v: usize, w: usize) -> Self {
        Adjacency {
            lists: self.lists.update(v as int, without(self.lists[v as int], w)),
            edges: (self.edges - 1) as nat,
        }
    }

    /// The state after every record between `v` and `w` is taken out of both
    /// lists.
    pub open spec fn without_edge(self, v: usize, w: usize) -> Self {
        let near = self.lists.update(v as int, without(self.lists[v as int], w));
        Adjacency {
            lists: near.update(w as int, without(near[w as int], v)),
            edges: (self.edges - 1) as nat,
        }
    }

    /// The state after all edges are removed.
    pub open spec fn cleared(self) -> Self {
        Adjacency { lists: no_records(self.lists.len()), edges: 0 }
    }
}

/// Taking out the records toward `w` never adds to a list's weight, and
/// lowers it where a counted record leads to `w`.
pub proof fn lemma_weight_without<E: Entry>(list: Seq<E>, owner: int, forward_only: bool, w: usize)
    ensures
        weight(without(list, w), owner, forward_only) <= weight(list, owner, forward_only),
        (exists|i: int|
            0 <= i < list.len() && (#[trigger] list[i]).target() == w && counts(
                owner,
                list[i],
                forward_only,
            )) ==> weight(without(list, w), owner, forward_only) < weight(
            list,
            owner,
            forward_only,
        ),
    decreases list.len(),
{
    reveal(Seq::filter);
    if list.len() > 0 {
        let front = list.drop_last();
        let last = list.last();
        let sub = without(front, w);
        lemma_weight_without(front, owner, forward_only, w);
        if last.target() != w {
            assert(without(list, w) == sub.push(last));
            assert(sub.push(last).drop_last() =~= sub);
        } else {
            assert(without(list, w) == sub);
        }
        if exists|i: int|
            0 <= i < list.len() && (#[trigger] list[i]).target() == w && counts(
                owner,
                list[i],
                forward_only,
            ) {
            let i = choose|i: int|
                0 <= i < list.len() && (#[trigger] list[i]).target() == w && counts(
                    owner,
                    list[i],
                    forward_only,
                );
            if i < front.len() {
                assert(front[i] == list[i]);
            }
        }
    }
}

/// Replacing the list of one vertex changes the total by the difference of
/// the two lists' weights.
pub proof fn lemma_total_update<E: Entry>(
    lists: Seq<Seq<E>>,
    v: int,
    list: Seq<E>,
    n: nat,
    forward_only: bool,
)
    requires
        0 <= v < lists.len(),
        n <= lists.len(),
    ensures
        total(lists.update(v, list), n, forward_only) + (if v < n {
            weight(lists[v], v, forward_only)
        } else {
            0
        }) == total(lists, n, forward_only) + (if v < n {
            weight(list, v, forward_only)
        } else {
            0
        }),
    decreases n,
{
    if n > 0 {
        lemma_total_update(lists, v, list, (n - 1) as nat, forward_only);
    }
}

/// Lists without records have total zero.
pub proof fn lemma_total_no_records<E: Entry>(order: nat, n: nat, forward_only: bool)
    requires
        n <= order,
    ensures
        total(no_records::<E>(order), n, forward_only) == 0,
    decreases n,
{
    if n > 0 {
        lemma_total_no_records::<E>(order, (n - 1) as nat, forward_only);
        assert(no_records::<E>(order)[n - 1].len() == 0);
    }
}

/// A graph without edges meets both invariants.
pub proof fn lemma_empty_ok<E: Entry>(order: nat)
    requires
        order <= usize::MAX,
    ensures
        Adjacency::<E>::empty(order).directed_ok(),
        Adjacency::<E>::empty(order).undirected_ok(),
{
    lemma_total_no_records::<E>(order, order, false);
    lemma_total_no_records::<E>(order, order, true);
}

/// Adding a directed edge keeps the directed invariant.
pub proof fn lemma_with_arc_ok<E: Entry>(g: Adjacency<E>, v: usize, e: E)
    requires
        g.directed_ok(),
        v < g.order(),
        e.target() < g.order(),
    ensures
        g.with_arc(v, e).directed_ok(),
{
    let after = g.with_arc(v, e);
    let list = g.lists[v as int].push(e);
    assert(list.drop_last() =~= g.lists[v as int]);
    lemma_total_update(g.lists, v as int, list, g.lists.len(), false);
    assert forall|x: int, i: int|
        0 <= x < after.lists.len() && 0 <= i < after.lists[x].len() implies (
    #[trigger] after.lists[x][i]).target() < after.lists.len() by {
        if x == v && i == list.len() - 1 {
        } else {
            assert(after.lists[x][i] == g.lists[x][i]);
        }
    }
}

/// Where the list of `v` leads to `w`, the counter of a directed graph is
/// positive, and taking the records out keeps the directed invariant.
pub proof fn lemma_without_arc_ok<E: Entry>(g: Adjacency<E>, v: usize, w: usize)
    requires
        g.directed_ok(),
        v < g.order(),
        g.linked(v, w),
    ensures
        g.edges >= 1,
        g.without_arc(v, w).directed_ok(),
{
    let after = g.without_arc(v, w);
    let list = without(g.lists[v as int], w);
    lemma_weight_without(g.lists[v as int], v as int, false, w);
    lemma_total_update(g.lists, v as int, list, g.lists.len(), false);
    lemma_without(g.lists[v as int], w);
    assert forall|x: int, i: int|
        0 <= x < after.lists.len() && 0 <= i < after.lists[x].len() implies (
    #[trigger] after.lists[x][i]).target() < after.lists.len() by {
        if x == v {
            assert(list.contains(list[i]));
            let k = choose|k: int| 0 <= k < g.lists[x].len() && g.lists[x][k] == list[i];
            assert(g.lists[x][k].target() < g.lists.len());
        } else {
            assert(after.lists[x][i] == g.lists[x][i]);
        }
    }
}

/// Adding an undirected edge keeps the first records of any two vertices
/// mirrors of each other.
pub proof fn lemma_with_edge_first<E: Entry>(g: Adjacency<E>, v: usize, e: E)
    requires
        g.first_symmetric(),
        v < g.order(),
        e.target() < g.order(),
    ensures
        g.with_edge(v, e).first_symmetric(),
{
    let w = e.target();
    let n = g.lists.len();
    let after = g.with_edge(v, e);
    let back = e.mirrored(v);
    e.mirrored_leads_back(v);
    assert forall|x: usize, u: usize|
        x < n && u < n && x != u implies #[trigger] after.first_mirrors(x, u) by {
        assert(g.first_mirrors(x, u));
        assert(g.first_mirrors(u, x));
        lemma_first_toward_push(g.lists[v as int], e, u);
        lemma_first_toward_push(g.lists[v as int], e, x);
        if w != v {
            lemma_first_toward_push(g.lists[w as int], back, u);
            lemma_first_toward_push(g.lists[w as int], back, x);
        }
    }
}

/// Taking an undirected edge out keeps the first records of any two
/// vertices mirrors of each other.
pub proof fn lemma_without_edge_first<E: Entry>(g: Adjacency<E>, v: usize, w: usize)
    requires
        g.first_symmetric(),
        v < g.order(),
        w < g.order(),
    ensures
        g.without_edge(v, w).first_symmetric(),
{
    let n = g.lists.len();
    let after = g.without_edge(v, w);
    let near = g.lists.update(v as int, without(g.lists[v as int], w));
    lemma_without(g.lists[v as int], w);
    lemma_without(near[w as int], v);
    assert forall|x: usize, u: usize|
        x < n && u < n && x != u implies #[trigger] after.first_mirrors(x, u) by {
        assert(g.first_mirrors(x, u));
    }
}

/// Adding an undirected edge keeps the undirected invariant.
pub proof fn lemma_with_edge_ok<E: Entry>(g: Adjacency<E>, v: usize, e: E)
    requires
        g.undirected_ok(),
        v < g.order(),
        e.target() < g.order(),
    ensures
        g.with_edge(v, e).undirected_ok(),
{
    let w = e.target();
    let after = g.with_edge(v, e);
    let n = g.lists.len();
    lemma_with_edge_first(g, v, e);
    let near_list = g.lists[v as int].push(e);
    let near = g.lists.update(v as int, near_list);
    let back = e.mirrored(v);
    e.mirrored_leads_back(v);
    assert(near_list.drop_last() =~= g.lists[v as int]);
    lemma_total_update(g.lists, v as int, near_list, n, true);
    if w != v {
        let far_list = near[w as int].push(back);
        assert(far_list.drop_last() =~= near[w as int]);
        lemma_total_update(near, w as int, far_list, n, true);
    }
    // every record of the old lists is still where it was
    assert forall|x: int, i: int| 0 <= x < n && 0 <= i < g.lists[x].len() implies (
    #[trigger] after.lists[x][i]) == g.lists[x][i] && i < after.lists[x].len() by {}
    assert forall|x: int, r: E| 0 <= x < n && g.lists[x].contains(r) implies (
    #[trigger] after.lists[x].contains(r)) by {
        let k = choose|k: int| 0 <= k < g.lists[x].len() && g.lists[x][k] == r;
        assert(after.lists[x][k] == r);
    }
    assert(after.lists[v as int][g.lists[v as int].len() as int] == e);
    assert(after.lists[v as int].contains(e));
    if w != v {
        assert(after.lists[w as int][g.lists[w as int].len() as int] == back);
        assert(after.lists[w as int].contains(back));
    }
    assert forall|x: int, i: int|
        0 <= x < after.lists.len() && 0 <= i < after.lists[x].len() implies (
    #[trigger] after.lists[x][i]).target() < after.lists.len() by {
        if i < g.lists[x].len() {
            assert(after.lists[x][i] == g.lists[x][i]);
        }
    }
    assert forall|x: int, i: int|
        0 <= x < after.lists.len() && 0 <= i < after.lists[x].len() && (
        #[trigger] after.lists[x][i]).target()
            != x implies after.lists[after.lists[x][i].target() as int].contains(
        after.lists[x][i].mirrored(x as usize),
    ) by {
        let r = after.lists[x][i];
        if i < g.lists[x].len() {
            assert(r == g.lists[x][i]);
            assert(g.lists[r.target() as int].contains(r.mirrored(x as usize)));
        } else if x == v {
            assert(r == e);
        } else {
            assert(r == back);
        }
    }
}

/// In an undirected graph a link from `v` to another vertex `w` has a link
/// back.
pub proof fn lemma_linked_back<E: Entry>(g: Adjacency<E>, v: usize, w: usize)
    requires
        g.in_range(),
        g.symmetric(),
        v < g.order(),
        g.linked(v, w),
    ensures
        w < g.order(),
        g.linked(w, v),
{
    let i = choose|i: int|
        0 <= i < g.lists[v as int].len() && (#[trigger] g.lists[v as int][i]).target() == w;
    let r = g.lists[v as int][i];
    if w != v {
        let m = r.mirrored(v);
        r.mirrored_leads_back(v);
        assert(g.lists[w as int].contains(m));
        let k = choose|k: int| 0 <= k < g.lists[w as int].len() && g.lists[w as int][k] == m;
        assert(g.lists[w as int][k].target() == v);
    }
}

/// Where an undirected graph links `v` to `w`, its counter is positive, and
/// taking the edge out of both lists keeps the undirected invariant.
pub proof fn lemma_without_edge_ok<E: Entry>(g: Adjacency<E>, v: usize, w: usize)
    requires
        g.undirected_ok(),
        v < g.order(),
        g.linked(v, w),
    ensures
        w < g.order(),
        g.edges >= 1,
        g.without_edge(v, w).undirected_ok(),
{
    lemma_linked_back(g, v, w);
    lemma_without_edge_first(g, v, w);
    let n = g.lists.len();
    let after = g.without_edge(v, w);
    let near_list = without(g.lists[v as int], w);
    let near = g.lists.update(v as int, near_list);
    let far_list = without(near[w as int], v);
    lemma_without(g.lists[v as int], w);
    lemma_without(near[w as int], v);
    lemma_weight_without(g.lists[v as int], v as int, true, w);
    lemma_weight_without(near[w as int], w as int, true, v);
    lemma_total_update(g.lists, v as int, near_list, n, true);
    lemma_total_update(near, w as int, far_list, n, true);
    if v <= w {
        let i = choose|i: int|
            0 <= i < g.lists[v as int].len() && (#[trigger] g.lists[v as int][i]).target() == w;
        assert(counts(v as int, g.lists[v as int][i], true));
    } else {
        let i = choose|i: int|
            0 <= i < g.lists[w as int].len() && (#[trigger] g.lists[w as int][i]).target() == v;
        assert(near[w as int] == g.lists[w as int]);
        assert(counts(w as int, near[w as int][i], true));
    }
    // what the new lists hold
    assert forall|x: int, r: E| 0 <= x < n implies ((#[trigger] after.lists[x].contains(r)) <==> (
    g.lists[x].contains(r) && !(x == v && r.target() == w) && !(x == w && r.target() == v))) by {
        if x == w {
            assert(after.lists[x] == far_list);
            if v == w {
                assert(near[w as int] == near_list);
            } else {
                assert(near[w as int] == g.lists[w as int]);
            }
        } else if x == v {
            assert(after.lists[x] == near_list);
        } else {
            assert(after.lists[x] == g.lists[x]);
        }
    }
    assert forall|x: int, i: int|
        0 <= x < after.lists.len() && 0 <= i < after.lists[x].len() implies (
    #[trigger] after.lists[x][i]).target() < after.lists.len() by {
        let r = after.lists[x][i];
        assert(after.lists[x].contains(r));
        assert(g.lists[x].contains(r));
        let k = choose|k: int| 0 <= k < g.lists[x].len() && g.lists[x][k] == r;
        assert(g.lists[x][k].target() < n);
    }
    assert forall|x: int, i: int|
        0 <= x < after.lists.len() && 0 <= i < after.lists[x].len() && (
        #[trigger] after.lists[x][i]).target()
            != x implies after.lists[after.lists[x][i].target() as int].contains(
        after.lists[x][i].mirrored(x as usize),
    ) by {
        let r = after.lists[x][i];
        let t = r.target();
        let m = r.mirrored(x as usize);
        r.mirrored_leads_back(x as usize);
        assert(after.lists[x].contains(r));
        assert(g.lists[x].contains(r));
        let k = choose|k: int| 0 <= k < g.lists[x].len() && g.lists[x][k] == r;
        assert(g.lists[x][k].target() < n);
        assert(g.lists[t as int].contains(g.lists[x][k].mirrored(x as usize)));
        assert(after.lists[t as int].contains(m));
    }
}

/// Removing all edges establishes both invariants.
pub proof fn lemma_cleared_ok<E: Entry>(g: Adjacency<E>)
    requires
        g.order() <= usize::MAX,
    ensures
        g.cleared().directed_ok(),
        g.cleared().undirected_ok(),
{
    lemma_empty_ok::<E>(g.lists.len());
}

/// A lookup after a directed edge was added finds it: the list of `v` leads
/// to the new record's target, the first record toward it is the one that
/// was first before, or the new record where there was none, and the counter
/// is up by one.
pub proof fn law_arc_added<E: Entry>(g: Adjacency<E>, v: usize, e: E)
    requires
        v < g.order(),
    ensures
        g.with_arc(v, e).order() == g.order(),
        g.with_arc(v, e).edges == g.edges + 1,
        g.with_arc(v, e).linked(v, e.target()),
        g.with_arc(v, e).first_link(v, e.target()) == if g.linked(v, e.target()) {
            g.first_link(v, e.target())
        } else {
            Some(e)
        },
        g.with_arc(v, e).degree(v) == g.degree(v) + 1,
        forall|x: usize, u: usize|
            x < g.order() && !(x == v && u == e.target()) ==> #[trigger] g.with_arc(
                v,
                e,
            ).first_link(x, u) == g.first_link(x, u),
{
    lemma_first_toward_push(g.lists[v as int], e, e.target());
    assert forall|x: usize, u: usize|
        x < g.order() && !(x == v && u == e.target()) implies #[trigger] g.with_arc(
        v,
        e,
    ).first_link(x, u) == g.first_link(x, u) by {
        lemma_first_toward_push(g.lists[v as int], e, u);
    }
}

/// A lookup after a directed edge was deleted finds none from `v` to `w`,
/// and the counter is down by one.
pub proof fn law_arc_deleted<E: Entry>(g: Adjacency<E>, v: usize, w: usize)
    requires
        g.directed_ok(),
        v < g.order(),
        g.linked(v, w),
    ensures
        g.without_arc(v, w).order() == g.order(),
        g.without_arc(v, w).edges == g.edges - 1,
        !g.without_arc(v, w).linked(v, w),
        g.without_arc(v, w).first_link(v, w) is None,
        forall|x: usize, u: usize|
            x < g.order() && !(x == v && u == w) ==> #[trigger] g.without_arc(v, w).first_link(
                x,
                u,
            ) == g.first_link(x, u),
{
    lemma_without_arc_ok(g, v, w);
    lemma_without(g.lists[v as int], w);
}

/// A lookup after an undirected edge was added finds it from both ends: each
/// endpoint's list leads to the other, the first record toward the other is
/// the one that was first before, or the new record (at the far end its
/// mirror) where there was none, and the counter is up by one.
pub proof fn law_edge_added<E: Entry>(g: Adjacency<E>, v: usize, e: E)
    requires
        v < g.order(),
        e.target() < g.order(),
    ensures
        g.with_edge(v, e).order() == g.order(),
        g.with_edge(v, e).edges == g.edges + 1,
        g.with_edge(v, e).linked(v, e.target()),
        g.with_edge(v, e).linked(e.target(), v),
        g.with_edge(v, e).first_link(v, e.target()) == if g.linked(v, e.target()) {
            g.first_link(v, e.target())
        } else {
            Some(e)
        },
        e.target() != v ==> g.with_edge(v, e).first_link(e.target(), v) == if g.linked(
            e.target(),
            v,
        ) {
            g.first_link(e.target(), v)
        } else {
            Some(e.mirrored(v))
        },
        forall|x: usize, u: usize|
            x < g.order() && !(x == v && u == e.target()) && !(x == e.target() && u == v)
                ==> #[trigger] g.with_edge(v, e).first_link(x, u) == g.first_link(x, u),
{
    let w = e.target();
    e.mirrored_leads_back(v);
    lemma_first_toward_push(g.lists[v as int], e, w);
    if w != v {
        lemma_first_toward_push(g.lists[w as int], e.mirrored(v), v);
    }
    assert forall|x: usize, u: usize|
        x < g.order() && !(x == v && u == w) && !(x == w && u == v) implies #[trigger] g.with_edge(
        v,
        e,
    ).first_link(x, u) == g.first_link(x, u) by {
        lemma_first_toward_push(g.lists[v as int], e, u);
        if w != v {
            lemma_first_toward_push(g.lists[w as int], e.mirrored(v), u);
        }
    }
}

/// A lookup after an undirected edge was deleted finds none between `v` and
/// `w` from either end, and the counter is down by one.
pub proof fn law_edge_deleted<E: Entry>(g: Adjacency<E>, v: usize, w: usize)
    requires
        g.undirected_ok(),
        v < g.order(),
        g.linked(v, w),
    ensures
        w < g.order(),
        g.without_edge(v, w).order() == g.order(),
        g.without_edge(v, w).edges == g.edges - 1,
        !g.without_edge(v, w).linked(v, w),
        !g.without_edge(v, w).linked(w, v),
        g.without_edge(v, w).first_link(v, w) is None,
        g.without_edge(v, w).first_link(w, v) is None,
        forall|x: usize, u: usize|
            x < g.order() && !(x == v && u == w) && !(x == w && u == v)
                ==> #[trigger] g.without_edge(v, w).first_link(x, u) == g.first_link(x, u),
{
    lemma_without_edge_ok(g, v, w);
    let near = g.lists.update(v as int, without(g.lists[v as int], w));
    lemma_without(g.lists[v as int], w);
    lemma_without(near[w as int], v);
}

/// In an undirected graph a lookup gives the same edge from both ends: one
/// list leads to the other vertex exactly where the other list leads back,
/// and the first record at one end is the mirror of the first at the other.
pub proof fn law_lookup_from_both_ends<E: Entry>(g: Adjacency<E>, v: usize, w: usize)
    requires
        g.undirected_ok(),
        v < g.order(),
        w < g.order(),
    ensures
        g.linked(v, w) == g.linked(w, v),
        v != w ==> g.first_mirrors(v, w) && g.first_mirrors(w, v),
{
    if v != w {
        assert(g.first_mirrors(v, w));
        assert(g.first_mirrors(w, v));
    }
}

/// After all edges are removed the order is what it was, the counter is
/// zero, and every vertex has degree zero.
pub proof fn law_cleared<E: Entry>(g: Adjacency<E>)
    ensures
        g.cleared().order() == g.order(),
        g.cleared().edges == 0,
        forall|v: usize| v < g.order() ==> #[trigger] g.cleared().degree(v) == 0,
        forall|v: usize, w: usize| v < g.order() ==> !#[trigger] g.cleared().linked(v, w),
{
}

/// Returns the position of the first record of `list` that leads to `w`.
pub fn position_toward<E: Entry>(list: &Vec<E>, w: usize) -> (found: Option<usize>)
    ensures
        match found {
            Some(i) => is_first_toward(list@, w, i as int),
            None => !leads_to(list@, w),
        },
{
    let mut i: usize = 0;
    while i < list.len()
        invariant
            i <= list.len(),
            forall|j: int| 0 <= j < i ==> (#[trigger] list@[j]).target() != w,
        decreases list.len() - i,
    {
        if list[i].neighbor() == w {
            return Some(i);
        }
        i += 1;
    }
    None
}

/// Takes every record that leads to `w` out of `list`; the others keep their
/// order.
pub fn remove_toward<E: Entry + Copy>(list: &mut Vec<E>, w: usize)
    ensures
        final(list)@ == without(old(list)@, w),
{
    let mut kept: Vec<E> = Vec::new();
    let mut i: usize = 0;
    proof {
        reveal(Seq::filter);
        assert(list@.take(0) =~= Seq::<E>::empty());
    }
    while i < list.len()
        invariant
            i <= list.len(),
            *list == *old(list),
            kept@ == without(list@.take(i as int), w),
        decreases list.len() - i,
    {
        let e = list[i];
        proof {
            reveal(Seq::filter);
            assert(list@.take(i + 1).drop_last() =~= list@.take(i as int));
        }
        if e.neighbor() != w {
            kept.push(e);
        }
        i += 1;
    }
    proof {
        assert(list@.take(i as int) =~= list@);
    }
    *list = kept;
}

/// Returns `order` empty adjacency lists.
pub fn empty_lists<E>(order: usize) -> (lists: Vec<Vec<E>>)
    ensures
        lists_of(lists) == no_records::<E>(order as nat),
{
    let mut lists: Vec<Vec<E>> = Vec::new();
    let mut i: usize = 0;
    while i < order
        invariant
            i <= order,
            lists.len() == i,
            forall|j: int| 0 <= j < i ==> (#[trigger] lists@[j])@.len() == 0,
        decreases order - i,
    {
        lists.push(Vec::new());
        i += 1;
    }
    proof {
        assert(lists_of(lists) =~= no_records::<E>(order as nat)) by {
            assert forall|j: int| 0 <= j < order implies lists_of(lists)[j]
                == Seq::<E>::empty() by {
                assert(lists@[j]@ =~= Seq::<E>::empty());
            }
        }
    }
    lists
}

/// Empties every adjacency list.
pub fn clear_lists<E>(lists: &mut Vec<Vec<E>>)
    ensures
        lists_of(*final(lists)) == no_records::<E>(old(lists).len() as nat),
{
    let n = lists.len();
    let mut i: usize = 0;
    while i < n
        invariant
            i <= n,
            lists.len() == n,
            n == old(lists).len(),
            forall|j: int| 0 <= j < i ==> (#[trigger] lists@[j])@.len() == 0,
        decreases n - i,
    {
        lists[i].clear();
        i += 1;
    }
    proof {
        assert(lists_of(*lists) =~= no_records::<E>(n as nat)) by {
            assert forall|j: int| 0 <= j < n implies lists_of(*lists)[j] == Seq::<E>::empty() by {
                assert(lists@[j]@ =~= Seq::<E>::empty());
            }
        }
    }
}

/// Returns a copy of every adjacency list.
pub fn copy_lists<E: Copy>(lists: &Vec<Vec<E>>) -> (copy: Vec<Vec<E>>)
    ensures
        lists_of(copy) == lists_of(*lists),
{
    let mut copy: Vec<Vec<E>> = Vec::new();
    let mut v: usize = 0;
    while v < lists.len()
        invariant
            v <= lists.len(),
            copy.len() == v,
            forall|u: int| 0 <= u < v ==> (#[trigger] copy@[u])@ == lists@[u]@,
        decreases lists.len() - v,
    {
        let list = &lists[v];
        let mut twin: Vec<E> = Vec::new();
        let mut i: usize = 0;
        while i < list.len()
            invariant
                i <= list.len(),
                twin.len() == i,
                forall|k: int| 0 <= k < i ==> twin@[k] == list@[k],
            decreases list.len() - i,
        {
            twin.push(list[i]);
            i += 1;
        }
        proof {
            assert(twin@ =~= list@);
        }
        copy.push(twin);
        v += 1;
    }
    proof {
        assert(lists_of(copy) =~= lists_of(*lists));
    }
    copy
}

/// Counts the lists that lead to `v`.
pub fn count_sources<E: Entry>(lists: &Vec<Vec<E>>, v: usize) -> (count: usize)
    ensures
        count == sources(lists_of(*lists), v),
{
    let ghost all = lists_of(*lists);
    let ghost leads = |list: Seq<E>| leads_to(list, v);
    let mut count: usize = 0;
    let mut i: usize = 0;
    proof {
        reveal(Seq::filter);
        assert(all.take(0) =~= Seq::<Seq<E>>::empty());
    }
    while i < lists.len()
        invariant
            i <= lists.len(),
            all == lists_of(*lists),
            leads == |list: Seq<E>| leads_to(list, v),
            count == all.take(i as int).filter(leads).len(),
            count <= i,
        decreases lists.len() - i,
    {
        proof {
            reveal(Seq::filter);
            assert(all.take(i + 1).drop_last() =~= all.take(i as int));
            assert(all.take(i + 1).last() == lists@[i as int]@);
        }
        if position_toward(&lists[i], v).is_some() {
            count += 1;
        }
        i += 1;
    }
    proof {
        assert(all.take(i as int) =~= all);
    }
    count
}

} // verus!
