use interactive_graphs::query::{join_core, mode_from_code, one_hop, point_lookup, three_hop, two_hop, undirected, QueryMode};

fn sorted(mut v: Vec<(usize, usize)>) -> Vec<(usize, usize)> {
    v.sort();
    v.dedup();
    v
}

fn small_graph() -> (Vec<(usize, usize)>, Vec<(usize, usize)>) {
    let edges = vec![(0, 1), (1, 2)];
    let state = vec![(0, 0), (1, 1), (2, 2), (3, 3)];
    (edges, state)
}

#[test]
fn one_hop_example_scenario() {
    let (edges, state) = small_graph();
    let queries = vec![(0, 3)];
    assert_eq!(one_hop(&queries, &edges, &state), vec![(0, 1)]);
}

#[test]
fn one_hop_uses_both_edge_directions() {
    let (edges, state) = small_graph();
    let queries = vec![(1, 0)];
    assert_eq!(sorted(one_hop(&queries, &edges, &state)), vec![(1, 0), (1, 2)]);
}

#[test]
fn one_hop_counts_each_neighbour() {
    let edges = vec![(0, 1), (0, 2)];
    let state = vec![(1, 7), (2, 7)];
    let queries = vec![(0, 0)];
    assert_eq!(one_hop(&queries, &edges, &state), vec![(0, 7), (0, 7)]);
}

#[test]
fn point_lookup_reads_state_of_queried_node() {
    let (_, state) = small_graph();
    let queries = vec![(2, 0), (5, 1)];
    assert_eq!(sorted(point_lookup(&queries, &state)), vec![(2, 2)]);
}

#[test]
fn point_lookup_without_queries_is_empty() {
    let (_, state) = small_graph();
    assert_eq!(point_lookup(&Vec::new(), &state), Vec::<(usize, usize)>::new());
}

#[test]
fn two_hop_reaches_neighbours_of_neighbours() {
    let (edges, state) = small_graph();
    let queries = vec![(0, 0)];
    assert_eq!(sorted(two_hop(&queries, &edges, &state)), vec![(0, 0), (0, 2)]);
}

#[test]
fn isolated_node_has_no_neighbour_state() {
    let (edges, state) = small_graph();
    let queries = vec![(3, 3)];
    assert!(one_hop(&queries, &edges, &state).is_empty());
    assert!(two_hop(&queries, &edges, &state).is_empty());
    assert_eq!(point_lookup(&queries, &state), vec![(3, 3)]);
}

#[test]
fn undirected_holds_both_directions() {
    let adj = sorted(undirected(&vec![(0, 1), (2, 2)]));
    assert_eq!(adj, vec![(0, 1), (1, 0), (2, 2)]);
}

#[test]
fn join_core_matches_on_key() {
    let left = vec![(1, 10), (2, 20)];
    let right = vec![(1, 5), (1, 6), (3, 7)];
    assert_eq!(sorted(join_core(&left, &right)), vec![(5, 10), (6, 10)]);
}

fn path_graph() -> Vec<(usize, usize)> {
    vec![(0, 1), (2, 1), (2, 3), (3, 4), (5, 4)]
}

#[test]
fn three_hop_reports_shortest_distances() {
    let edges = path_graph();
    let queries = vec![(0, 0), (0, 1), (0, 2), (0, 3), (0, 4), (4, 0)];
    let mut r = three_hop(&edges, &queries);
    r.sort();
    assert_eq!(
        r,
        vec![
            ((0, 0), 0),
            ((0, 1), 1),
            ((0, 2), 2),
            ((0, 3), 3),
            ((0, 4), 4),
            ((4, 0), 4),
            ((4, 1), 3),
            ((4, 2), 2),
            ((4, 3), 1),
            ((4, 4), 0),
        ]
    );
}

#[test]
fn three_hop_drops_pairs_beyond_four_hops() {
    let edges = path_graph();
    let queries = vec![(0, 5), (0, 6)];
    assert!(three_hop(&edges, &queries).is_empty());
}

#[test]
fn three_hop_takes_the_shorter_route() {
    // a square 0-1-2-3-0 with a tail 3-4: 0 to 2 is two hops either way,
    // 1 to 4 is three hops, 0 to 4 is two, 1 to 2 is one.
    let edges = vec![(0, 1), (1, 2), (2, 3), (3, 0), (3, 4)];
    let queries = vec![(0, 2), (1, 4), (0, 4)];
    let mut r = three_hop(&edges, &queries);
    r.sort();
    assert_eq!(r, vec![((0, 2), 2), ((0, 4), 2), ((1, 2), 1), ((1, 4), 3)]);
}

#[test]
fn mode_codes_select_pipelines() {
    assert_eq!(mode_from_code(1), Some(QueryMode::PointLookup));
    assert_eq!(mode_from_code(2), Some(QueryMode::OneHop));
    assert_eq!(mode_from_code(3), Some(QueryMode::TwoHop));
    assert_eq!(mode_from_code(4), Some(QueryMode::ShortestPath));
    assert_eq!(mode_from_code(0), None);
    assert_eq!(mode_from_code(5), None);
}

#[test]
fn three_hop_answers_each_pair_once() {
    let edges = path_graph();
    let queries = vec![(0, 2), (1, 1), (0, 2)];
    let mut r = three_hop(&edges, &queries);
    r.sort();
    assert_eq!(r, vec![((0, 1), 1), ((0, 2), 2), ((1, 1), 0), ((1, 2), 1)]);
}

#[test]
fn three_hop_pairs_every_source_with_every_target() {
    let edges = vec![(0, 1)];
    let queries = vec![(0, 0), (1, 1)];
    let mut r = three_hop(&edges, &queries);
    r.sort();
    assert_eq!(r, vec![((0, 0), 0), ((0, 1), 1), ((1, 0), 1), ((1, 1), 0)]);
}

#[test]
fn point_lookup_multiplies_query_and_state_copies() {
    let queries = vec![(2, 0), (2, 5), (3, 1)];
    let state = vec![(2, 2), (2, 2), (2, 9)];
    let mut r = point_lookup(&queries, &state);
    r.sort();
    assert_eq!(r, vec![(2, 2), (2, 2), (2, 2), (2, 2), (2, 9), (2, 9)]);
}

#[test]
fn two_hop_counts_each_two_step_walk() {
    // node 0 has neighbour 1, whose neighbours are 0 and 2: one walk back to 0
    // and one on to 2; the edge given twice doubles the walks through it.
    let edges = vec![(0, 1), (1, 2), (1, 2)];
    let state = vec![(0, 5), (2, 6)];
    let queries = vec![(0, 0)];
    let mut r = two_hop(&queries, &edges, &state);
    r.sort();
    assert_eq!(r, vec![(0, 5), (0, 6), (0, 6)]);
}
