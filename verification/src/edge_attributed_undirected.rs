//! An undirected graph whose edges carry an attribute.

use crate::adjacency::{
    attribute_of, clear_lists, empty_lists, law_edge_added, law_edge_deleted,
    law_lookup_from_both_ends, lemma_cleared_ok, lemma_empty_ok, lemma_first_toward_at,
    lemma_with_edge_ok, lemma_without_edge_ok, lists_of, position_toward, remove_toward,
    Adjacency,
};
use crate::error::GraphError;
use vstd::prelude::*;

verus! {

/// An edge-attributed undirected graph.
///
/// Vertices are the indices below the order given at construction. Each
/// vertex keeps its records `(neighbor, attribute)` in the order in which the
/// edges were added. An edge is recorded at both endpoints with the same
/// attribute; a self-loop is recorded once. The same pair of vertices may be
/// joined by several edges.
pub struct EdgeAttributedUndirectedGraph<Attr: Copy> {
    adjacency_list: Vec<Vec<(usize, Attr)>>,
    edge_count: usize,
}

impl<Attr: Copy> View for EdgeAttributedUndirectedGraph<Attr> {
    type V = Adjacency<(usize, Attr)>;

    closed spec fn view(&self) -> Adjacency<(usize, Attr)> {
        Adjacency { lists: lists_of(self.adjacency_list), edges: self.edge_count as nat }
    }
}

impl<Attr: Copy> EdgeAttributedUndirectedGraph<Attr> {
    /// The invariant of the container: see [`Adjacency::undirected_ok`].
    pub open spec fn well_formed(&self) -> bool {
        self@.undirected_ok()
    }

    /// Initialize an empty graph with order vertices.
    pub fn new(order: usize) -> (graph: Self)
        ensures
            graph.well_formed(),
            graph@ == Adjacency::<(usize, Attr)>::empty(order as nat),
    {
        proof {
            lemma_empty_ok::<(usize, Attr)>(order as nat);
        }
        EdgeAttributedUndirectedGraph { adjacency_list: empty_lists(order), edge_count: 0 }
    }

    /// Add an edge between vertices v and w, with a specified attribute.
    pub fn add_edge(&mut self, v: usize, w: usize, attr: Attr)
        requires
            old(self).well_formed(),
            v < old(self)@.order(),
            w < old(self)@.order(),
            old(self)@.edges < usize::MAX,
        ensures
            final(self).well_formed(),
            final(self)@ == old(self)@.with_edge(v, (w, attr)),
            final(self)@.order() == old(self)@.order(),
            final(self)@.edges == old(self)@.edges + 1,
            final(self)@.linked(v, w),
            final(self)@.linked(w, v),
            attribute_of(final(self)@.first_link(v, w)) == (if old(self)@.linked(v, w) {
                attribute_of(old(self)@.first_link(v, w))
            } else {
                Some(attr)
            }),
            attribute_of(final(self)@.first_link(w, v)) == attribute_of(
                final(self)@.first_link(v, w),
            ),
            forall|x: usize, u: usize|
                x < old(self)@.order() && !(x == v && u == w) && !(x == w && u == v)
                    ==> #[trigger] final(self)@.first_link(x, u) == old(self)@.first_link(x, u),
    {
        proof {
            lemma_with_edge_ok(self@, v, (w, attr));
            law_edge_added(self@, v, (w, attr));
            law_same_attribute_from_both_ends(self@.with_edge(v, (w, attr)), v, w);
        }
        self.adjacency_list[v].push((w, attr));
        if v != w {
            self.adjacency_list[w].push((v, attr));
        }
        self.edge_count += 1;
        proof {
            assert(self@.lists =~= old(self)@.with_edge(v, (w, attr)).lists);
        }
    }

    /// Remove the edge between vertices v and w: every record between the
    /// two is taken out, and the size goes down by one.
    pub fn delete_edge(&mut self, v: usize, w: usize) -> (done: Result<(), GraphError>)
        requires
            old(self).well_formed(),
        ensures
            final(self).well_formed(),
            match done {
                Ok(_) => {
                    &&& v < old(self)@.order()
                    &&& w < old(self)@.order()
                    &&& old(self)@.linked(v, w)
                    &&& final(self)@ == old(self)@.without_edge(v, w)
                    &&& final(self)@.edges == old(self)@.edges - 1
                    &&& !final(self)@.linked(v, w)
                    &&& !final(self)@.linked(w, v)
                    &&& forall|x: usize, u: usize|
                        x < old(self)@.order() && !(x == v && u == w) && !(x == w && u == v)
                            ==> #[trigger] final(self)@.first_link(x, u)
                            == old(self)@.first_link(x, u)
                },
                Err(GraphError::InvalidArgument) => {
                    &&& v >= old(self)@.order() || w >= old(self)@.order()
                    &&& final(self)@ == old(self)@
                },
                Err(GraphError::NotFound) => {
                    &&& v < old(self)@.order()
                    &&& w < old(self)@.order()
                    &&& !old(self)@.linked(v, w)
                    &&& final(self)@ == old(self)@
                },
            },
    {
        let order = self.adjacency_list.len();
        if v >= order || w >= order {
            return Err(GraphError::InvalidArgument);
        }
        if position_toward(&self.adjacency_list[v], w).is_none() {
            return Err(GraphError::NotFound);
        }
        proof {
            lemma_without_edge_ok(self@, v, w);
            law_edge_deleted(self@, v, w);
        }
        remove_toward(&mut self.adjacency_list[v], w);
        remove_toward(&mut self.adjacency_list[w], v);
        self.edge_count -= 1;
        proof {
            assert(self@.lists =~= old(self)@.without_edge(v, w).lists);
        }
        Ok(())
    }

    /// Check if there is an edge between vertices v and w; where there is
    /// one, the attribute of the first such edge in the list of v comes with
    /// the answer.
    pub fn has_edge(&self, v: usize, w: usize) -> (found: (bool, Option<Attr>))
        requires
            v < self@.order(),
        ensures
            found.0 == self@.linked(v, w),
            found.1 == attribute_of(self@.first_link(v, w)),
    {
        match position_toward(&self.adjacency_list[v], w) {
            Some(i) => {
                proof {
                    lemma_first_toward_at(self@.lists[v as int], w, i as int);
                }
                (true, Some(self.adjacency_list[v][i].1))
            },
            None => (false, None),
        }
    }

    /// Return the number of vertices in the graph.
    pub fn order(&self) -> (order: usize)
        ensures
            order == self@.order(),
    {
        self.adjacency_list.len()
    }

    /// Return a reference to the adjacency list of vertex v.
    pub fn neighbors_of(&self, v: usize) -> (list: &Vec<(usize, Attr)>)
        requires
            v < self@.order(),
        ensures
            list@ == self@.lists[v as int],
    {
        &self.adjacency_list[v]
    }

    /// Return the number of edges in the graph.
    pub fn size(&self) -> (size: usize)
        ensures
            size == self@.edges,
    {
        self.edge_count
    }

    /// Remove all edges from the graph: the order stays, the size and every
    /// degree are zero.
    pub fn clear(&mut self)
        ensures
            final(self).well_formed(),
            final(self)@ == old(self)@.cleared(),
            final(self)@.order() == old(self)@.order(),
            final(self)@.edges == 0,
            forall|v: usize| v < old(self)@.order() ==> #[trigger] final(self)@.degree(v) == 0,
            forall|v: usize, w: usize|
                v < old(self)@.order() ==> !#[trigger] final(self)@.linked(v, w),
    {
        proof {
            assert(self.adjacency_list.len() <= usize::MAX);
            lemma_cleared_ok(self@);
        }
        clear_lists(&mut self.adjacency_list);
        self.edge_count = 0;
    }

    /// Return the degree of vertex v: the length of its adjacency list.
    pub fn degree(&self, v: usize) -> (degree: usize)
        requires
            v < self@.order(),
        ensures
            degree == self@.degree(v),
            degree == self@.lists[v as int].len(),
    {
        self.adjacency_list[v].len()
    }
}

/// A lookup finds an edge from one end exactly where it finds one from the
/// other, and gives the same attribute from both.
pub proof fn law_same_attribute_from_both_ends<Attr>(
    g: Adjacency<(usize, Attr)>,
    v: usize,
    w: usize,
)
    requires
        g.undirected_ok(),
        v < g.order(),
        w < g.order(),
    ensures
        g.linked(v, w) == g.linked(w, v),
        attribute_of(g.first_link(v, w)) == attribute_of(g.first_link(w, v)),
{
    law_lookup_from_both_ends(g, v, w);
}

/// After an edge between `v` and `w` with attribute `attr` is added, a
/// lookup from either end finds an edge and gives `attr`, and the size is up
/// by one. Left out are the graphs in which an earlier edge between the two
/// carries another attribute: there the lookup gives the earlier one.
pub proof fn law_added_edge_is_found<Attr>(
    g: Adjacency<(usize, Attr)>,
    v: usize,
    w: usize,
    attr: Attr,
)
    requires
        v < g.order(),
        w < g.order(),
        attribute_of(g.first_link(v, w)) matches Some(earlier) ==> earlier == attr,
        attribute_of(g.first_link(w, v)) matches Some(earlier) ==> earlier == attr,
    ensures
        g.with_edge(v, (w, attr)).linked(v, w),
        g.with_edge(v, (w, attr)).linked(w, v),
        attribute_of(g.with_edge(v, (w, attr)).first_link(v, w)) == Some(attr),
        attribute_of(g.with_edge(v, (w, attr)).first_link(w, v)) == Some(attr),
        g.with_edge(v, (w, attr)).edges == g.edges + 1,
{
    law_edge_added(g, v, (w, attr));
}

/// After the edge between `v` and `w` is deleted, a lookup from either end
/// finds no edge and gives no attribute, and the size is down by one.
pub proof fn law_deleted_edge_is_gone<Attr>(g: Adjacency<(usize, Attr)>, v: usize, w: usize)
    requires
        g.undirected_ok(),
        v < g.order(),
        w < g.order(),
        g.linked(v, w),
    ensures
        !g.without_edge(v, w).linked(v, w),
        !g.without_edge(v, w).linked(w, v),
        attribute_of(g.without_edge(v, w).first_link(v, w)) is None,
        attribute_of(g.without_edge(v, w).first_link(w, v)) is None,
        g.without_edge(v, w).edges == g.edges - 1,
{
    law_edge_deleted(g, v, w);
}

} // verus!
