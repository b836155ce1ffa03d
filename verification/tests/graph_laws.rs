use terrain_graph::directed::DirectedGraph;
use terrain_graph::edge_attributed_directed::EdgeAttributedDirectedGraph;
use terrain_graph::edge_attributed_undirected::EdgeAttributedUndirectedGraph;
use terrain_graph::error::GraphError;
use terrain_graph::undirected::UndirectedGraph;

#[test]
fn added_edge_is_found_from_both_ends() {
    let mut g: EdgeAttributedUndirectedGraph<i32> = EdgeAttributedUndirectedGraph::new(4);
    for v in 0..4 {
        for w in v..4 {
            let before = g.size();
            let a = (10 * v + w) as i32;
            g.add_edge(v, w, a);
            assert_eq!(g.has_edge(v, w), (true, Some(a)));
            assert_eq!(g.has_edge(w, v), (true, Some(a)));
            assert_eq!(g.size(), before + 1);
        }
    }
}

#[test]
fn second_edge_between_two_vertices_leaves_the_first_in_front() {
    let mut g: EdgeAttributedUndirectedGraph<i32> = EdgeAttributedUndirectedGraph::new(2);
    g.add_edge(0, 1, 10);
    g.add_edge(0, 1, 20);
    assert_eq!(g.size(), 2);
    assert_eq!(g.has_edge(0, 1), (true, Some(10)));
    assert_eq!(g.has_edge(1, 0), (true, Some(10)));
    assert_eq!(g.neighbors_of(0), &vec![(1, 10), (1, 20)]);
    assert_eq!(g.neighbors_of(1), &vec![(0, 10), (0, 20)]);
}

#[test]
fn deleted_edge_is_gone_from_both_ends() {
    let mut g: EdgeAttributedUndirectedGraph<i32> = EdgeAttributedUndirectedGraph::new(3);
    g.add_edge(0, 1, 10);
    g.add_edge(1, 2, 20);
    g.add_edge(2, 0, 30);
    assert_eq!(g.delete_edge(1, 0), Ok(()));
    assert_eq!(g.has_edge(0, 1), (false, None));
    assert_eq!(g.has_edge(1, 0), (false, None));
    assert_eq!(g.size(), 2);
    assert_eq!(g.has_edge(1, 2), (true, Some(20)));
    assert_eq!(g.has_edge(0, 2), (true, Some(30)));
    assert_eq!(g.neighbors_of(0), &vec![(2, 30)]);
    assert_eq!(g.neighbors_of(1), &vec![(2, 20)]);
}

#[test]
fn deleting_takes_every_edge_between_the_two_and_counts_one() {
    let mut g: EdgeAttributedUndirectedGraph<i32> = EdgeAttributedUndirectedGraph::new(3);
    g.add_edge(0, 1, 10);
    g.add_edge(0, 2, 15);
    g.add_edge(0, 1, 20);
    assert_eq!(g.size(), 3);
    assert_eq!(g.delete_edge(0, 1), Ok(()));
    assert_eq!(g.size(), 2);
    assert_eq!(g.has_edge(0, 1), (false, None));
    assert_eq!(g.has_edge(1, 0), (false, None));
    assert_eq!(g.degree(0), 1);
    assert_eq!(g.degree(1), 0);
    assert_eq!(g.delete_edge(0, 1), Err(GraphError::NotFound));
    assert_eq!(g.size(), 2);
}

#[test]
fn deleting_a_missing_edge_is_refused() {
    let mut g: EdgeAttributedUndirectedGraph<i32> = EdgeAttributedUndirectedGraph::new(3);
    assert_eq!(g.delete_edge(0, 1), Err(GraphError::NotFound));
    g.add_edge(0, 1, 10);
    assert_eq!(g.delete_edge(0, 2), Err(GraphError::NotFound));
    assert_eq!(g.delete_edge(2, 2), Err(GraphError::NotFound));
    assert_eq!(g.size(), 1);
    assert_eq!(g.has_edge(0, 1), (true, Some(10)));

    let mut d = DirectedGraph::new(2);
    d.add_edge(0, 1);
    assert_eq!(d.delete_edge(1, 0), Err(GraphError::NotFound));
    assert_eq!(d.size(), 1);

    let mut u = UndirectedGraph::new(2);
    assert_eq!(u.delete_edge(1, 0), Err(GraphError::NotFound));
    assert_eq!(u.size(), 0);

    let mut a: EdgeAttributedDirectedGraph<i32> = EdgeAttributedDirectedGraph::new(2);
    a.add_edge(0, 1, 3);
    assert_eq!(a.delete_edge(1, 0), Err(GraphError::NotFound));
    assert_eq!(a.size(), 1);
}

#[test]
fn deleting_with_a_vertex_out_of_range_is_refused() {
    let mut g: EdgeAttributedUndirectedGraph<i32> = EdgeAttributedUndirectedGraph::new(3);
    g.add_edge(0, 1, 10);
    assert_eq!(g.delete_edge(3, 0), Err(GraphError::InvalidArgument));
    assert_eq!(g.delete_edge(0, 3), Err(GraphError::InvalidArgument));
    assert_eq!(g.size(), 1);

    let mut d = DirectedGraph::new(2);
    assert_eq!(d.delete_edge(2, 0), Err(GraphError::InvalidArgument));
    let mut u = UndirectedGraph::new(2);
    assert_eq!(u.delete_edge(0, 2), Err(GraphError::InvalidArgument));
    let mut a: EdgeAttributedDirectedGraph<i32> = EdgeAttributedDirectedGraph::new(2);
    assert_eq!(a.delete_edge(5, 5), Err(GraphError::InvalidArgument));
}

#[test]
fn clear_resets_size_and_degrees_and_keeps_the_order() {
    let mut g: EdgeAttributedUndirectedGraph<i32> = EdgeAttributedUndirectedGraph::new(4);
    g.add_edge(0, 1, 1);
    g.add_edge(1, 2, 2);
    g.add_edge(3, 3, 3);
    g.clear();
    assert_eq!(g.size(), 0);
    assert_eq!(g.order(), 4);
    for v in 0..4 {
        assert_eq!(g.degree(v), 0);
        assert_eq!(g.neighbors_of(v).len(), 0);
    }
    g.add_edge(2, 3, 4);
    assert_eq!(g.size(), 1);
    assert_eq!(g.has_edge(3, 2), (true, Some(4)));
}

#[test]
fn degree_is_the_length_of_the_adjacency_list() {
    let mut g: EdgeAttributedUndirectedGraph<i32> = EdgeAttributedUndirectedGraph::new(4);
    g.add_edge(0, 1, 1);
    g.add_edge(0, 2, 2);
    g.add_edge(0, 1, 3);
    g.add_edge(3, 3, 4);
    for v in 0..4 {
        assert_eq!(g.degree(v), g.neighbors_of(v).len());
    }
    assert_eq!(g.degree(0), 3);
    assert_eq!(g.degree(1), 2);
    assert_eq!(g.degree(2), 1);
    assert_eq!(g.degree(3), 1);
}

#[test]
fn self_loop_is_stored_once() {
    let mut g: EdgeAttributedUndirectedGraph<i32> = EdgeAttributedUndirectedGraph::new(2);
    g.add_edge(1, 1, 7);
    assert_eq!(g.size(), 1);
    assert_eq!(g.neighbors_of(1), &vec![(1, 7)]);
    assert_eq!(g.has_edge(1, 1), (true, Some(7)));
    assert_eq!(g.delete_edge(1, 1), Ok(()));
    assert_eq!(g.size(), 0);
    assert_eq!(g.degree(1), 0);

    let mut u = UndirectedGraph::new(2);
    u.add_edge(0, 0);
    assert_eq!(u.neighbors_of(0), &vec![0]);
    assert_eq!(u.degree(0), 1);
    assert_eq!(u.delete_edge(0, 0), Ok(()));
    assert_eq!(u.size(), 0);
}

#[test]
fn empty_graph_has_no_vertices() {
    let g: EdgeAttributedUndirectedGraph<i32> = EdgeAttributedUndirectedGraph::new(0);
    assert_eq!(g.order(), 0);
    assert_eq!(g.size(), 0);
    assert_eq!(DirectedGraph::new(0).order(), 0);
    assert_eq!(UndirectedGraph::new(0).order(), 0);
}

#[test]
fn has_edge_to_a_vertex_out_of_range_finds_nothing() {
    let mut g: EdgeAttributedUndirectedGraph<i32> = EdgeAttributedUndirectedGraph::new(2);
    g.add_edge(0, 1, 1);
    assert_eq!(g.has_edge(0, 9), (false, None));
    let mut d = DirectedGraph::new(2);
    d.add_edge(0, 1);
    assert!(!d.has_edge(0, 9));
}

#[test]
fn indegree_counts_vertices_not_edges() {
    let mut d = DirectedGraph::new(3);
    d.add_edge(0, 2);
    d.add_edge(0, 2);
    d.add_edge(1, 2);
    d.add_edge(2, 2);
    assert_eq!(d.indegree(2), 3);
    assert_eq!(d.outdegree(0), 2);
    assert_eq!(d.indegree(0), 0);
    assert_eq!(d.indegree(7), 0);

    let mut a: EdgeAttributedDirectedGraph<i32> = EdgeAttributedDirectedGraph::new(3);
    a.add_edge(0, 2, 1);
    a.add_edge(0, 2, 2);
    a.add_edge(1, 2, 3);
    assert_eq!(a.indegree(2), 2);
    assert_eq!(a.has_edge(0, 2), (true, 1));
    assert_eq!(a.delete_edge(0, 2), Ok(()));
    assert_eq!(a.size(), 2);
    assert_eq!(a.indegree(2), 1);
    assert_eq!(a.outdegree(0), 0);
}

#[test]
fn directed_clear_empties_every_list() {
    let mut d = DirectedGraph::new(3);
    d.add_edge(0, 1);
    d.add_edge(1, 2);
    d.clear();
    for v in 0..3 {
        assert_eq!(d.outdegree(v), 0);
        assert_eq!(d.indegree(v), 0);
    }
}

#[test]
fn clone_has_the_same_edges_and_is_independent() {
    let mut d = DirectedGraph::new(3);
    d.add_edge(0, 1);
    d.add_edge(0, 2);
    d.add_edge(2, 1);
    let mut copy = d.clone();
    assert_eq!(copy.order(), 3);
    assert_eq!(copy.size(), 3);
    assert_eq!(copy.neighbors_of(0), &vec![1, 2]);
    assert_eq!(copy.neighbors_of(1), &Vec::<usize>::new());
    assert_eq!(copy.neighbors_of(2), &vec![1]);
    assert_eq!(copy.delete_edge(0, 1), Ok(()));
    assert!(d.has_edge(0, 1));
    assert_eq!(d.size(), 3);
    assert_eq!(copy.size(), 2);
}

#[test]
fn lookup_gives_the_same_attribute_from_both_ends() {
    let mut g: EdgeAttributedUndirectedGraph<i32> = EdgeAttributedUndirectedGraph::new(4);
    g.add_edge(0, 1, 10);
    g.add_edge(1, 0, 20);
    g.add_edge(2, 1, 30);
    g.add_edge(1, 2, 40);
    g.add_edge(3, 3, 50);
    for v in 0..4 {
        for w in 0..4 {
            assert_eq!(g.has_edge(v, w), g.has_edge(w, v));
        }
    }
    assert_eq!(g.has_edge(1, 0), (true, Some(10)));
    assert_eq!(g.has_edge(1, 2), (true, Some(30)));
    assert_eq!(g.delete_edge(1, 0), Ok(()));
    g.add_edge(1, 0, 60);
    for v in 0..4 {
        for w in 0..4 {
            assert_eq!(g.has_edge(v, w), g.has_edge(w, v));
        }
    }
    assert_eq!(g.has_edge(0, 1), (true, Some(60)));
}

#[test]
fn adding_an_edge_leaves_the_other_lookups_as_they_were() {
    let mut g: EdgeAttributedUndirectedGraph<i32> = EdgeAttributedUndirectedGraph::new(3);
    g.add_edge(0, 1, 10);
    g.add_edge(0, 2, 20);
    assert_eq!(g.has_edge(0, 1), (true, Some(10)));
    assert_eq!(g.has_edge(1, 2), (false, None));
    assert_eq!(g.delete_edge(0, 2), Ok(()));
    assert_eq!(g.has_edge(0, 1), (true, Some(10)));
    assert_eq!(g.has_edge(1, 0), (true, Some(10)));
}

#[test]
fn directed_lookup_gives_the_default_attribute_on_a_miss() {
    let mut a: EdgeAttributedDirectedGraph<(u8, bool)> = EdgeAttributedDirectedGraph::new(2);
    a.add_edge(0, 1, (7, true));
    assert_eq!(a.has_edge(0, 1), (true, (7, true)));
    assert_eq!(a.has_edge(1, 0), (false, (0, false)));
    assert_eq!(a.has_edge(0, 5), (false, (0, false)));
}
