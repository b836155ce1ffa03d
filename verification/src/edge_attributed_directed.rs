//! A directed graph whose edges carry an attribute.

use crate::adjacency::{
    attribute_of, clear_lists, count_sources, empty_lists, law_arc_added, law_arc_deleted,
    lemma_cleared_ok, lemma_empty_ok, lemma_first_toward_at, lemma_with_arc_ok,
    lemma_without_arc_ok, lists_of, position_toward, remove_toward, Adjacency,
};
use crate::error::GraphError;
use vstd::prelude::*;

verus! {

/// An edge-attributed directed graph.
///
/// Vertices are the indices below the order given at construction. Each
/// vertex keeps a record `(head, attribute)` for every edge that leaves it,
/// in the order in which the edges were added. Several edges may lead from
/// one vertex to the same other. A lookup that finds no edge answers with
/// the default attribute.
pub struct EdgeAttributedDirectedGraph<Attr: Copy + Default> {
    adjacency_list: Vec<Vec<(usize, Attr)>>,
    edge_count: usize,
}

impl<Attr: Copy + Default> View for EdgeAttributedDirectedGraph<Attr> {
    type V = Adjacency<(usize, Attr)>;

    closed spec fn view(&self) -> Adjacency<(usize, Attr)> {
        Adjacency { lists: lists_of(self.adjacency_list), edges: self.edge_count as nat }
    }
}

impl<Attr: Copy + Default> EdgeAttributedDirectedGraph<Attr> {
    /// The invariant of the container: see [`Adjacency::directed_ok`].
    pub open spec fn well_formed(&self) -> bool {
        self@.directed_ok()
    }

    /// Initialize an empty graph with order vertices.
    pub fn new(order: usize) -> (graph: Self)
        ensures
            graph.well_formed(),
            graph@ == Adjacency::<(usize, Attr)>::empty(order as nat),
    {
        proof {
            lemma_empty_ok::<(usize, Attr)>(order as nat);
        }
        EdgeAttributedDirectedGraph { adjacency_list: empty_lists(order), edge_count: 0 }
    }

    /// Add an edge from vertex v to vertex w, with a specified attribute.
    pub fn add_edge(&mut self, v: usize, w: usize, attr: Attr)
        requires
            old(self).well_formed(),
            v < old(self)@.order(),
            w < old(self)@.order(),
            old(self)@.edges < usize::MAX,
        ensures
            final(self).well_formed(),
            final(self)@ == old(self)@.with_arc(v, (w, attr)),
            final(self)@.order() == old(self)@.order(),
            final(self)@.edges == old(self)@.edges + 1,
            final(self)@.linked(v, w),
            attribute_of(final(self)@.first_link(v, w)) == (if old(self)@.linked(v, w) {
                attribute_of(old(self)@.first_link(v, w))
            } else {
                Some(attr)
            }),
            forall|x: usize, u: usize|
                x < old(self)@.order() && !(x == v && u == w)
                    ==> #[trigger] final(self)@.first_link(x, u) == old(self)@.first_link(x, u),
    {
        proof {
            lemma_with_arc_ok(self@, v, (w, attr));
            law_arc_added(self@, v, (w, attr));
        }
        self.adjacency_list[v].push((w, attr));
        self.edge_count += 1;
        proof {
            assert(self@.lists =~= old(self)@.with_arc(v, (w, attr)).lists);
        }
    }

    /// Remove the edge from vertex v to vertex w: every record from v to w
    /// is taken out, and the size goes down by one.
    pub fn delete_edge(&mut self, v: usize, w: usize) -> (done: Result<(), GraphError>)
        requires
            old(self).well_formed(),
        ensures
            final(self).well_formed(),
            match done {
                Ok(_) => {
                    &&& v < old(self)@.order()
                    &&& w < old(self)@.order()
                    &&& old(self)@.linked(v, w)
                    &&& final(self)@ == old(self)@.without_arc(v, w)
                    &&& final(self)@.edges == old(self)@.edges - 1
                    &&& !final(self)@.linked(v, w)
                    &&& forall|x: usize, u: usize|
                        x < old(self)@.order() && !(x == v && u == w)
                            ==> #[trigger] final(self)@.first_link(x, u)
                            == old(self)@.first_link(x, u)
                },
                Err(GraphError::InvalidArgument) => {
                    &&& v >= old(self)@.order() || w >= old(self)@.order()
                    &&& final(self)@ == old(self)@
                },
                Err(GraphError::NotFound) => {
                    &&& v < old(self)@.order()
                    &&& w < old(self)@.order()
                    &&& !old(self)@.linked(v, w)
                    &&& final(self)@ == old(self)@
                },
            },
    {
        let order = self.adjacency_list.len();
        if v >= order || w >= order {
            return Err(GraphError::InvalidArgument);
        }
        if position_toward(&self.adjacency_list[v], w).is_none() {
            return Err(GraphError::NotFound);
        }
        proof {
            lemma_without_arc_ok(self@, v, w);
            law_arc_deleted(self@, v, w);
        }
        remove_toward(&mut self.adjacency_list[v], w);
        self.edge_count -= 1;
        proof {
            assert(self@.lists =~= old(self)@.without_arc(v, w).lists);
        }
        Ok(())
    }

    /// Check if there is an edge from vertex v to vertex w. Where there is
    /// one, the attribute of the first such edge in the list of v comes with
    /// the answer; where there is none, the default attribute does.
    pub fn has_edge(&self, v: usize, w: usize) -> (found: (bool, Attr))
        requires
            v < self@.order(),
        ensures
            found.0 == self@.linked(v, w),
            found.0 ==> Some(found.1) == attribute_of(self@.first_link(v, w)),
            !found.0 ==> call_ensures(Attr::default, (), found.1),
    {
        match position_toward(&self.adjacency_list[v], w) {
            Some(i) => {
                proof {
                    lemma_first_toward_at(self@.lists[v as int], w, i as int);
                }
                (true, self.adjacency_list[v][i].1)
            },
            None => (false, Default::default()),
        }
    }

    /// Return the number of vertices in the graph.
    pub fn order(&self) -> (order: usize)
        ensures
            order == self@.order(),
    {
        self.adjacency_list.len()
    }

    /// Return a reference to the adjacency list of vertex v.
    pub fn neighbors_of(&self, v: usize) -> (list: &Vec<(usize, Attr)>)
        requires
            v < self@.order(),
        ensures
            list@ == self@.lists[v as int],
    {
        &self.adjacency_list[v]
    }

    /// Return the number of edges in the graph.
    pub fn size(&self) -> (size: usize)
        ensures
            size == self@.edges,
    {
        self.edge_count
    }

    /// Remove all edges from the graph: the order stays, the size and every
    /// degree are zero.
    pub fn clear(&mut self)
        ensures
            final(self).well_formed(),
            final(self)@ == old(self)@.cleared(),
            final(self)@.order() == old(self)@.order(),
            final(self)@.edges == 0,
            forall|v: usize| v < old(self)@.order() ==> #[trigger] final(self)@.degree(v) == 0,
            forall|v: usize, w: usize|
                v < old(self)@.order() ==> !#[trigger] final(self)@.linked(v, w),
    {
        proof {
            assert(self.adjacency_list.len() <= usize::MAX);
            lemma_cleared_ok(self@);
        }
        clear_lists(&mut self.adjacency_list);
        self.edge_count = 0;
    }

    /// Return the out-degree of vertex v: the length of its adjacency list.
    pub fn outdegree(&self, v: usize) -> (degree: usize)
        requires
            v < self@.order(),
        ensures
            degree == self@.degree(v),
            degree == self@.lists[v as int].len(),
    {
        self.adjacency_list[v].len()
    }

    /// Return the in-degree of vertex v: the number of vertices with an edge
    /// to v, however many edges each of them has to it.
    ///
    /// Note: This requires O(|V| + |E|) time to compute.
    pub fn indegree(&self, v: usize) -> (degree: usize)
        ensures
            degree == self@.indegree(v),
    {
        count_sources(&self.adjacency_list, v)
    }
}

} // verus!
