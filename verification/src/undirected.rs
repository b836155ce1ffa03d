//! An undirected graph.

use crate::adjacency::{
    clear_lists, empty_lists, law_edge_added, law_edge_deleted, lemma_cleared_ok, lemma_empty_ok,
    lemma_with_edge_ok, lemma_without_edge_ok, lists_of, position_toward, remove_toward,
    Adjacency,
};
use crate::error::GraphError;
use vstd::prelude::*;

verus! {

/// A struct for representing an undirected graph.
///
/// Vertices are the indices below the order given at construction. Each
/// vertex keeps its neighbors in the order in which the edges were added. An
/// edge is recorded at both endpoints; a self-loop is recorded once. The same
/// pair of vertices may be joined by several edges.
pub struct UndirectedGraph {
    adjacency_list: Vec<Vec<usize>>,
    edge_count: usize,
}

impl View for UndirectedGraph {
    type V = Adjacency<usize>;

    closed spec fn view(&self) -> Adjacency<usize> {
        Adjacency { lists: lists_of(self.adjacency_list), edges: self.edge_count as nat }
    }
}

impl UndirectedGraph {
    /// The invariant of the container: see [`Adjacency::undirected_ok`].
    pub open spec fn well_formed(&self) -> bool {
        self@.undirected_ok()
    }

    /// Initialize an empty graph with order vertices.
    pub fn new(order: usize) -> (graph: Self)
        ensures
            graph.well_formed(),
            graph@ == Adjacency::<usize>::empty(order as nat),
    {
        proof {
            lemma_empty_ok::<usize>(order as nat);
        }
        UndirectedGraph { adjacency_list: empty_lists(order), edge_count: 0 }
    }

    /// Add an edge between vertices v and w.
    pub fn add_edge(&mut self, v: usize, w: usize)
        requires
            old(self).well_formed(),
            v < old(self)@.order(),
            w < old(self)@.order(),
            old(self)@.edges < usize::MAX,
        ensures
            final(self).well_formed(),
            final(self)@ == old(self)@.with_edge(v, w),
            final(self)@.order() == old(self)@.order(),
            final(self)@.edges == old(self)@.edges + 1,
            final(self)@.linked(v, w),
            final(self)@.linked(w, v),
            forall|x: usize, u: usize|
                x < old(self)@.order() && !(x == v && u == w) && !(x == w && u == v)
                    ==> #[trigger] final(self)@.first_link(x, u) == old(self)@.first_link(x, u),
    {
        proof {
            lemma_with_edge_ok(self@, v, w);
            law_edge_added(self@, v, w);
        }
        self.adjacency_list[v].push(w);
        if v != w {
            self.adjacency_list[w].push(v);
        }
        self.edge_count += 1;
        proof {
            assert(self@.lists =~= old(self)@.with_edge(v, w).lists);
        }
    }

    /// Remove the edge between vertices v and w: every record between the
    /// two is taken out, and the size goes down by one.
    pub fn delete_edge(&mut self, v: usize, w: usize) -> (done: Result<(), GraphError>)
        requires
            old(self).well_formed(),
        ensures
            final(self).well_formed(),
            match done {
                Ok(_) => {
                    &&& v < old(self)@.order()
                    &&& w < old(self)@.order()
                    &&& old(self)@.linked(v, w)
                    &&& final(self)@ == old(self)@.without_edge(v, w)
                    &&& final(self)@.edges == old(self)@.edges - 1
                    &&& !final(self)@.linked(v, w)
                    &&& !final(self)@.linked(w, v)
                    &&& forall|x: usize, u: usize|
                        x < old(self)@.order() && !(x == v && u == w) && !(x == w && u == v)
                            ==> #[trigger] final(self)@.first_link(x, u)
                            == old(self)@.first_link(x, u)
                },
                Err(GraphError::InvalidArgument) => {
                    &&& v >= old(self)@.order() || w >= old(self)@.order()
                    &&& final(self)@ == old(self)@
                },
                Err(GraphError::NotFound) => {
                    &&& v < old(self)@.order()
                    &&& w < old(self)@.order()
                    &&& !old(self)@.linked(v, w)
                    &&& final(self)@ == old(self)@
                },
            },
    {
        let order = self.adjacency_list.len();
        if v >= order || w >= order {
            return Err(GraphError::InvalidArgument);
        }
        if position_toward(&self.adjacency_list[v], w).is_none() {
            return Err(GraphError::NotFound);
        }
        proof {
            lemma_without_edge_ok(self@, v, w);
            law_edge_deleted(self@, v, w);
        }
        remove_toward(&mut self.adjacency_list[v], w);
        remove_toward(&mut self.adjacency_list[w], v);
        self.edge_count -= 1;
        proof {
            assert(self@.lists =~= old(self)@.without_edge(v, w).lists);
        }
        Ok(())
    }

    /// Check if there is an edge between vertices v and w.
    pub fn has_edge(&self, v: usize, w: usize) -> (found: bool)
        requires
            v < self@.order(),
        ensures
            found == self@.linked(v, w),
    {
        position_toward(&self.adjacency_list[v], w).is_some()
    }

    /// Return the number of vertices in the graph.
    pub fn order(&self) -> (order: usize)
        ensures
            order == self@.order(),
    {
        self.adjacency_list.len()
    }

    /// Return a reference to the adjacency list of vertex v.
    pub fn neighbors_of(&self, v: usize) -> (list: &Vec<usize>)
        requires
            v < self@.order(),
        ensures
            list@ == self@.lists[v as int],
    {
        &self.adjacency_list[v]
    }

    /// Return the number of edges in the graph.
    pub fn size(&self) -> (size: usize)
        ensures
            size == self@.edges,
    {
        self.edge_count
    }

    /// Remove all edges from the graph: the order stays, the size and every
    /// degree are zero.
    pub fn clear(&mut self)
        ensures
            final(self).well_formed(),
            final(self)@ == old(self)@.cleared(),
            final(self)@.order() == old(self)@.order(),
            final(self)@.edges == 0,
            forall|v: usize| v < old(self)@.order() ==> #[trigger] final(self)@.degree(v) == 0,
            forall|v: usize, w: usize|
                v < old(self)@.order() ==> !#[trigger] final(self)@.linked(v, w),
    {
        proof {
            assert(self.adjacency_list.len() <= usize::MAX);
            lemma_cleared_ok(self@);
        }
        clear_lists(&mut self.adjacency_list);
        self.edge_count = 0;
    }

    /// Return the degree of vertex v: the length of its adjacency list.
    pub fn degree(&self, v: usize) -> (degree: usize)
        requires
            v < self@.order(),
        ensures
            degree == self@.degree(v),
            degree == self@.lists[v as int].len(),
    {
        self.adjacency_list[v].len()
    }
}

} // verus!
