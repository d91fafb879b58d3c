use advent::errors::ConfigurationError;
use advent::frontier::MinHeap;
use advent::graph::Graph;
use advent::search::shortest_path;

#[test]
fn heap_hands_out_entries_in_order() {
    let mut heap = MinHeap::new();
    for e in [(5u64, 1u64), (3, 9), (8, 2), (3, 4), (0, 7), (5, 0)] {
        heap.push(e);
    }
    assert_eq!(heap.len(), 6);
    let mut out = vec![];
    while let Some(e) = heap.pop() {
        out.push(e);
    }
    assert_eq!(out, vec![(0, 7), (3, 4), (3, 9), (5, 0), (5, 1), (8, 2)]);
    assert!(heap.is_empty());
    assert_eq!(heap.pop(), None);
}

#[test]
fn heap_keeps_equal_entries() {
    let mut heap = MinHeap::new();
    heap.push((2, 2));
    heap.push((2, 2));
    heap.push((1, 5));
    assert_eq!(heap.pop(), Some((1, 5)));
    assert_eq!(heap.pop(), Some((2, 2)));
    assert_eq!(heap.pop(), Some((2, 2)));
    assert_eq!(heap.pop(), None);
}

fn diamond() -> Graph {
    // 0 -> 1 (4), 0 -> 2 (1), 2 -> 1 (2), 1 -> 3 (5), 2 -> 3 (9)
    let mut g = Graph::new(5);
    assert!(g.add_edge(0, 1, 4));
    assert!(g.add_edge(0, 2, 1));
    assert!(g.add_edge(2, 1, 2));
    assert!(g.add_edge(1, 3, 5));
    assert!(g.add_edge(2, 3, 9));
    g
}

#[test]
fn search_finds_the_cheapest_walk() {
    let mut g = diamond();
    assert!(g.set_goal(3));
    assert_eq!(shortest_path(&g, 0), Ok(Some(8)));
    assert_eq!(shortest_path(&g, 2), Ok(Some(7)));
    assert_eq!(shortest_path(&g, 3), Ok(Some(0)));
}

#[test]
fn search_reports_an_unreachable_goal() {
    // node 4 has no incoming edge: the graph falls into two parts
    let mut g = diamond();
    assert!(g.set_goal(4));
    assert_eq!(shortest_path(&g, 0), Ok(None));
    assert_eq!(shortest_path(&g, 4), Ok(Some(0)));
}

#[test]
fn search_without_goal_finds_nothing() {
    let g = diamond();
    assert_eq!(shortest_path(&g, 0), Ok(None));
}

#[test]
fn search_takes_the_nearest_of_several_goals() {
    let mut g = diamond();
    assert!(g.set_goal(3));
    assert!(g.set_goal(1));
    assert_eq!(shortest_path(&g, 0), Ok(Some(3)));
}

#[test]
fn search_rejects_a_start_outside_the_space() {
    let mut g = diamond();
    assert!(g.set_goal(3));
    assert_eq!(shortest_path(&g, 5), Err(ConfigurationError::InvalidStart(5)));
}

#[test]
fn search_treats_costs_beyond_64_bits_as_out_of_range() {
    let mut g = Graph::new(3);
    assert!(g.add_edge(0, 1, u64::MAX));
    assert!(g.add_edge(1, 2, 1));
    assert!(g.set_goal(2));
    assert_eq!(shortest_path(&g, 0), Ok(None));
    assert_eq!(shortest_path(&g, 1), Ok(Some(1)));
}

#[test]
fn graph_refuses_edges_and_goals_outside_its_nodes() {
    let mut g = Graph::new(2);
    assert_eq!(g.len(), 2);
    assert!(!g.add_edge(0, 2, 1));
    assert!(!g.add_edge(2, 0, 1));
    assert!(!g.set_goal(2));
    assert!(g.add_edge(1, 1, 3));
}

#[test]
fn search_follows_cycles_without_looping() {
    let mut g = Graph::new(3);
    assert!(g.add_edge(0, 1, 1));
    assert!(g.add_edge(1, 0, 1));
    assert!(g.add_edge(1, 1, 0));
    assert!(g.add_edge(1, 2, 10));
    assert!(g.set_goal(2));
    assert_eq!(shortest_path(&g, 0), Ok(Some(11)));
}
