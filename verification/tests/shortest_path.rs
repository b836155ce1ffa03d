use terrain_graph::cost::Cost;
use terrain_graph::edge_attributed_undirected::EdgeAttributedUndirectedGraph;
use terrain_graph::error::SearchError;
use terrain_graph::shortest_path::{find_shortest_path, Termination};

type Target = Termination<fn(usize) -> bool>;

fn is_even_vertex(v: usize) -> bool {
    v % 2 == 0
}

fn sample() -> EdgeAttributedUndirectedGraph<i32> {
    let mut g: EdgeAttributedUndirectedGraph<i32> = EdgeAttributedUndirectedGraph::new(4);
    g.add_edge(0, 1, 5);
    g.add_edge(1, 2, 2);
    g.add_edge(0, 2, 9);
    g.add_edge(2, 3, 1);
    g
}

#[test]
fn trivial_path_is_the_start_alone() {
    let g = sample();
    for s in 0..4 {
        let found = find_shortest_path(&g, s, Target::Vertex(s), |w: i32| w);
        assert_eq!(found, Ok((vec![s], vec![])));
    }
}

#[test]
fn trivial_path_in_a_graph_without_edges() {
    let g: EdgeAttributedUndirectedGraph<i32> = EdgeAttributedUndirectedGraph::new(1);
    let found = find_shortest_path(&g, 0, Target::Vertex(0), |w: i32| w);
    assert_eq!(found, Ok((vec![0], vec![])));
}

#[test]
fn no_path_between_two_components() {
    let mut g: EdgeAttributedUndirectedGraph<i32> = EdgeAttributedUndirectedGraph::new(5);
    g.add_edge(0, 1, 1);
    g.add_edge(1, 2, 1);
    g.add_edge(3, 4, 1);
    let found = find_shortest_path(&g, 0, Target::Vertex(4), |w: i32| w);
    assert_eq!(found, Err(SearchError::NoPathExists));
    let back = find_shortest_path(&g, 3, Target::Vertex(1), |w: i32| w);
    assert_eq!(back, Err(SearchError::NoPathExists));
    let inside = find_shortest_path(&g, 3, Target::Vertex(4), |w: i32| w);
    assert_eq!(inside, Ok((vec![3, 4], vec![1])));
}

#[test]
fn frontier_is_ordered_by_the_cost_of_the_last_edge() {
    // 0 discovers 1 (cost 5) and 2 (cost 9); 1 has its turn and finds 2
    // discovered already; 2 discovers 3. The way 0, 1, 2, 3 would cost 8 in
    // all, the way found costs 10.
    let g = sample();
    let found = find_shortest_path(&g, 0, Target::Vertex(3), |w: i32| w);
    assert_eq!(found, Ok((vec![0, 2, 3], vec![9, 1])));
}

#[test]
fn path_to_a_neighbor_takes_the_direct_edge() {
    let g = sample();
    let found = find_shortest_path(&g, 0, Target::Vertex(2), |w: i32| w);
    assert_eq!(found, Ok((vec![0, 2], vec![9])));
    let other = find_shortest_path(&g, 3, Target::Vertex(0), |w: i32| w);
    assert_eq!(other, Ok((vec![3, 2, 0], vec![1, 9])));
}

#[test]
fn predicate_stops_at_the_first_even_vertex_that_has_its_turn() {
    let mut g: EdgeAttributedUndirectedGraph<i32> = EdgeAttributedUndirectedGraph::new(6);
    g.add_edge(1, 3, 1);
    g.add_edge(3, 5, 1);
    g.add_edge(5, 4, 1);
    g.add_edge(1, 2, 2);
    // 2 is the even vertex nearest to 1 by the sum of costs (2 against 3),
    // but 4 has its turn first.
    let found = find_shortest_path(&g, 1, Termination::Predicate(is_even_vertex), |w: i32| w);
    assert_eq!(found, Ok((vec![1, 3, 5, 4], vec![1, 1, 1])));
}

#[test]
fn predicate_that_holds_at_the_start_stops_there() {
    let g = sample();
    let found = find_shortest_path(&g, 2, Termination::Predicate(is_even_vertex), |w: i32| w);
    assert_eq!(found, Ok((vec![2], vec![])));
}

#[test]
fn predicate_that_never_holds_finds_no_path() {
    let g = sample();
    let found = find_shortest_path(&g, 0, Termination::Predicate(|v: usize| v > 10), |w: i32| w);
    assert_eq!(found, Err(SearchError::NoPathExists));
}

#[test]
fn start_out_of_range_is_an_invalid_argument() {
    let g = sample();
    let found = find_shortest_path(&g, 4, Target::Vertex(0), |w: i32| w);
    assert_eq!(found, Err(SearchError::InvalidArgument));
    let with_predicate =
        find_shortest_path(&g, 7, Termination::Predicate(is_even_vertex), |w: i32| w);
    assert_eq!(with_predicate, Err(SearchError::InvalidArgument));
}

#[test]
fn target_out_of_range_is_an_invalid_argument() {
    let g = sample();
    let found = find_shortest_path(&g, 0, Target::Vertex(4), |w: i32| w);
    assert_eq!(found, Err(SearchError::InvalidArgument));
    let empty: EdgeAttributedUndirectedGraph<i32> = EdgeAttributedUndirectedGraph::new(0);
    let nowhere = find_shortest_path(&empty, 0, Target::Vertex(0), |w: i32| w);
    assert_eq!(nowhere, Err(SearchError::InvalidArgument));
}

#[test]
fn equal_costs_go_by_the_order_of_discovery() {
    let mut g: EdgeAttributedUndirectedGraph<u8> = EdgeAttributedUndirectedGraph::new(5);
    g.add_edge(0, 2, 7);
    g.add_edge(0, 1, 7);
    g.add_edge(1, 4, 7);
    g.add_edge(2, 3, 7);
    g.add_edge(3, 4, 7);
    // 2 is discovered before 1, so 3 is discovered before 4, and 1 has its
    // turn before 3: 4 is discovered by 1.
    let found = find_shortest_path(&g, 0, Target::Vertex(4), |w: u8| w);
    assert_eq!(found, Ok((vec![0, 1, 4], vec![7, 7])));
    let found = find_shortest_path(&g, 0, Target::Vertex(3), |w: u8| w);
    assert_eq!(found, Ok((vec![0, 2, 3], vec![7, 7])));
}

#[test]
fn cost_may_differ_from_the_attribute() {
    let mut g: EdgeAttributedUndirectedGraph<(char, u32)> = EdgeAttributedUndirectedGraph::new(4);
    g.add_edge(0, 1, ('a', 1));
    g.add_edge(0, 2, ('b', 3));
    g.add_edge(1, 3, ('c', 9));
    g.add_edge(2, 3, ('d', 1));
    // by the cost itself 1 has its turn before 2 and discovers 3
    let plain = find_shortest_path(&g, 0, Target::Vertex(3), |a: (char, u32)| a.1);
    assert_eq!(plain, Ok((vec![0, 1, 3], vec![('a', 1), ('c', 9)])));
    // with the order turned round 2 has its turn first
    let turned = find_shortest_path(&g, 0, Target::Vertex(3), |a: (char, u32)| -i64::from(a.1));
    assert_eq!(turned, Ok((vec![0, 2, 3], vec![('b', 3), ('d', 1)])));
}

#[test]
fn attribute_on_the_path_is_that_of_the_first_edge() {
    let mut g: EdgeAttributedUndirectedGraph<i32> = EdgeAttributedUndirectedGraph::new(3);
    g.add_edge(0, 1, 8);
    g.add_edge(0, 1, 3);
    g.add_edge(1, 2, 4);
    let found = find_shortest_path(&g, 0, Target::Vertex(2), |w: i32| w);
    assert_eq!(found, Ok((vec![0, 1, 2], vec![8, 4])));
}

#[test]
fn self_loops_do_not_disturb_the_search() {
    let mut g: EdgeAttributedUndirectedGraph<i32> = EdgeAttributedUndirectedGraph::new(3);
    g.add_edge(0, 0, 1);
    g.add_edge(0, 1, 2);
    g.add_edge(1, 1, 0);
    g.add_edge(1, 2, 5);
    let found = find_shortest_path(&g, 0, Target::Vertex(2), |w: i32| w);
    assert_eq!(found, Ok((vec![0, 1, 2], vec![2, 5])));
}

#[test]
fn path_passes_no_vertex_twice_and_follows_edges() {
    let mut g: EdgeAttributedUndirectedGraph<u16> = EdgeAttributedUndirectedGraph::new(8);
    let edges: [(usize, usize, u16); 10] = [
        (0, 1, 4),
        (0, 2, 1),
        (2, 3, 6),
        (1, 3, 2),
        (3, 4, 3),
        (4, 5, 1),
        (2, 5, 9),
        (5, 6, 2),
        (6, 7, 2),
        (1, 7, 8),
    ];
    for (v, w, a) in edges {
        g.add_edge(v, w, a);
    }
    for target in 0..8 {
        let (path, attrs) = find_shortest_path(&g, 0, Target::Vertex(target), |w: u16| w).unwrap();
        assert_eq!(path[0], 0);
        assert_eq!(*path.last().unwrap(), target);
        assert_eq!(attrs.len() + 1, path.len());
        for i in 0..attrs.len() {
            assert_eq!(g.has_edge(path[i], path[i + 1]), (true, Some(attrs[i])));
        }
        for i in 0..path.len() {
            for j in 0..i {
                assert_ne!(path[i], path[j]);
            }
        }
    }
}

#[derive(Clone, Copy, Debug, PartialEq)]
struct Grade {
    steep: bool,
    length: u32,
}

impl Cost for Grade {
    fn zero() -> Self {
        Grade { steep: false, length: 0 }
    }

    fn precedes(&self, other: &Self) -> bool {
        (self.steep, self.length) < (other.steep, other.length)
    }
}

#[test]
fn cost_of_a_type_of_the_caller_orders_the_frontier() {
    let mut g: EdgeAttributedUndirectedGraph<Grade> = EdgeAttributedUndirectedGraph::new(4);
    let flat_long = Grade { steep: false, length: 90 };
    let steep_short = Grade { steep: true, length: 1 };
    let flat_short = Grade { steep: false, length: 2 };
    g.add_edge(0, 1, steep_short);
    g.add_edge(0, 2, flat_long);
    g.add_edge(1, 3, flat_short);
    g.add_edge(2, 3, flat_short);
    // a flat edge comes before a steep one, however long it is
    let found = find_shortest_path(&g, 0, Target::Vertex(3), |a: Grade| a);
    assert_eq!(found, Ok((vec![0, 2, 3], vec![flat_long, flat_short])));
}

fn never_called(_attr: i32) -> i32 {
    panic!("the search asked for a cost")
}

fn never_asked(_v: usize) -> bool {
    panic!("the search asked the predicate")
}

#[test]
fn search_for_the_start_itself_calls_no_cost_function() {
    let g = sample();
    let found = find_shortest_path(&g, 1, Target::Vertex(1), never_called);
    assert_eq!(found, Ok((vec![1], vec![])));
}

#[test]
fn search_with_arguments_out_of_range_calls_neither_function() {
    let g = sample();
    let found = find_shortest_path(&g, 9, Termination::Predicate(never_asked), never_called);
    assert_eq!(found, Err(SearchError::InvalidArgument));
    let other = find_shortest_path(&g, 0, Target::Vertex(9), never_called);
    assert_eq!(other, Err(SearchError::InvalidArgument));
}
