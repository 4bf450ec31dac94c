use graph_metrics::centrality::closeness_centrality;
use graph_metrics::components::connected_components;
use graph_metrics::degree::calculate_degree_distribution;
use graph_metrics::distance::shortest_path_length;
use graph_metrics::graph::Graph;

/// Turns the exact ratio scores into floating-point closeness values;
/// an undefined score becomes NaN so a test can spot it explicitly.
fn scores_as_f64(scores: &[Option<(usize, u128)>]) -> Vec<f64> {
    scores
        .iter()
        .map(|s| match s {
            Some((num, den)) => *num as f64 / *den as f64,
            None => f64::NAN,
        })
        .collect()
}

#[test]
fn test_simple_graph() {
    let mut graph = Graph::new();
    graph.add_edge(0, 1);
    graph.add_edge(1, 2);
    graph.add_edge(3, 4);

    let components = connected_components(&graph);
    assert_eq!(components.len(), 2);
    assert!(components.contains(&vec![0, 1, 2]));
    assert!(components.contains(&vec![3, 4]));
}

#[test]
fn test_single_node_graph() {
    let mut graph = Graph::new();
    graph.add_node(0);

    let components = connected_components(&graph);
    assert_eq!(components.len(), 1);
    assert_eq!(components[0], vec![0]);
}

#[test]
fn test_linear_graph() {
    let mut graph = Graph::new();
    graph.add_edge(0, 1);
    graph.add_edge(1, 2);
    graph.add_edge(2, 3);

    let centrality = scores_as_f64(&closeness_centrality(&graph));
    // hop counts from the ends are 1+2+3 = 6, from the middle 1+1+2 = 4
    let expected_values = vec![0.5, 0.75, 0.75, 0.5];
    assert_eq!(centrality.len(), 4);
    for (calculated, &expected) in centrality.iter().zip(expected_values.iter()) {
        assert!((calculated - expected).abs() < 1e-6);
    }
}

#[test]
fn test_star_graph() {
    let mut graph = Graph::new();
    graph.add_edge(0, 1);
    graph.add_edge(0, 2);
    graph.add_edge(0, 3);
    graph.add_edge(0, 4);

    let centrality = scores_as_f64(&closeness_centrality(&graph));
    // the center is one hop from every leaf; a leaf is two hops from the
    // other three leaves, so its sum is 1 + 2 + 2 + 2 = 7
    let leaf = 4.0 / 7.0;
    let expected_values = vec![1.0, leaf, leaf, leaf, leaf];
    assert_eq!(centrality.len(), 5);
    for (calculated, &expected) in centrality.iter().zip(expected_values.iter()) {
        assert!((calculated - expected).abs() < 1e-6);
    }
}

#[test]
fn components_cover_every_node_exactly_once() {
    let mut graph = Graph::new();
    graph.add_edge(0, 1);
    graph.add_edge(1, 2);
    graph.add_edge(3, 4);
    graph.add_node(7);

    let components = connected_components(&graph);
    let mut seen: Vec<u32> = components.iter().flatten().copied().collect();
    seen.sort();
    assert_eq!(seen, vec![0, 1, 2, 3, 4, 7]);
}

#[test]
fn connected_graph_is_one_component() {
    let mut graph = Graph::new();
    graph.add_edge(0, 1);
    graph.add_edge(1, 2);
    graph.add_edge(2, 3);

    let components = connected_components(&graph);
    assert_eq!(components.len(), 1);
    assert_eq!(components[0].len(), 4);
}

#[test]
fn isolated_node_component_and_centrality() {
    let mut graph = Graph::new();
    graph.add_node(9);

    let components = connected_components(&graph);
    assert_eq!(components.len(), 1);
    assert_eq!(components[0], vec![9]);

    // a lone node has nobody to be close to: its score is undefined
    let centrality = closeness_centrality(&graph);
    assert_eq!(centrality, vec![None]);
}

#[test]
fn unreachable_pair_makes_centrality_undefined() {
    let mut graph = Graph::new();
    graph.add_edge(0, 1);
    graph.add_node(2);

    let centrality = closeness_centrality(&graph);
    assert_eq!(centrality, vec![None, None, None]);
}

#[test]
fn distance_to_self_is_zero() {
    let mut graph = Graph::new();
    graph.add_edge(0, 1);
    graph.add_edge(1, 2);
    graph.add_node(5);

    assert_eq!(shortest_path_length(0, 0, &graph), Some(0));
    assert_eq!(shortest_path_length(1, 1, &graph), Some(0));
    assert_eq!(shortest_path_length(5, 5, &graph), Some(0));
}

#[test]
fn distance_counts_hops_exactly() {
    let mut graph = Graph::new();
    graph.add_edge(0, 1);
    graph.add_edge(1, 2);
    graph.add_edge(2, 3);
    // a chord: 0-2 shortens the way to 3
    graph.add_edge(0, 2);

    assert_eq!(shortest_path_length(0, 1, &graph), Some(1));
    assert_eq!(shortest_path_length(0, 2, &graph), Some(1));
    assert_eq!(shortest_path_length(0, 3, &graph), Some(2));
    assert_eq!(shortest_path_length(3, 0, &graph), Some(2));
}

#[test]
fn distance_signals_unreachable() {
    let mut graph = Graph::new();
    graph.add_edge(0, 1);
    graph.add_edge(2, 3);

    assert_eq!(shortest_path_length(0, 3, &graph), None);
    assert_eq!(shortest_path_length(2, 1, &graph), None);
}

#[test]
fn degree_histogram_chain() {
    let mut graph = Graph::new();
    graph.add_edge(0, 1);
    graph.add_edge(1, 2);
    graph.add_edge(2, 3);

    // the two ends have one neighbor occurrence, the two middle nodes two
    let histogram = calculate_degree_distribution(&graph);
    assert_eq!(histogram, vec![(1, 2), (2, 2)]);
}

#[test]
fn degree_histogram_star() {
    let mut graph = Graph::new();
    graph.add_edge(0, 1);
    graph.add_edge(0, 2);
    graph.add_edge(0, 3);
    graph.add_edge(0, 4);

    let histogram = calculate_degree_distribution(&graph);
    assert_eq!(histogram, vec![(1, 4), (4, 1)]);
}

#[test]
fn degree_histogram_counts_sum_to_node_count() {
    let mut graph = Graph::new();
    graph.add_edge(0, 1);
    graph.add_edge(0, 1);
    graph.add_edge(1, 2);
    graph.add_edge(3, 3);
    graph.add_node(8);

    let histogram = calculate_degree_distribution(&graph);
    let total: usize = histogram.iter().map(|&(_, c)| c).sum();
    assert_eq!(total, graph.num_nodes());
}

#[test]
fn self_loop_counts_as_one_neighbor_occurrence() {
    let mut graph = Graph::new();
    graph.add_edge(5, 5);

    assert_eq!(graph.neighbors(5), vec![5]);
    assert_eq!(calculate_degree_distribution(&graph), vec![(1, 1)]);
    assert_eq!(shortest_path_length(5, 5, &graph), Some(0));

    let components = connected_components(&graph);
    assert_eq!(components, vec![vec![5]]);
}

#[test]
fn duplicate_edges_are_kept() {
    let mut graph = Graph::new();
    graph.add_edge(0, 1);
    graph.add_edge(0, 1);
    graph.add_edge(1, 0);

    assert_eq!(graph.num_edges(), 3);
    assert_eq!(graph.num_nodes(), 2);
    assert_eq!(graph.neighbors(0), vec![1, 1, 1]);
}

#[test]
fn node_registration_is_idempotent_and_ordered() {
    let mut graph = Graph::new();
    graph.add_node(3);
    graph.add_node(1);
    graph.add_node(3);
    graph.add_edge(1, 2);

    assert_eq!(graph.num_nodes(), 3);
    assert_eq!(graph.node_at(0), 3);
    assert_eq!(graph.node_at(1), 1);
    assert_eq!(graph.node_at(2), 2);
}

#[test]
fn empty_graph_yields_empty_results() {
    let graph = Graph::new();

    assert_eq!(graph.num_nodes(), 0);
    assert_eq!(graph.num_edges(), 0);
    assert!(connected_components(&graph).is_empty());
    assert!(closeness_centrality(&graph).is_empty());
    assert!(calculate_degree_distribution(&graph).is_empty());
}

#[test]
fn summary_counts_nodes_and_raw_edges() {
    let mut graph = Graph::new();
    graph.add_edge(0, 1);
    graph.add_edge(1, 2);
    graph.add_edge(1, 2);
    graph.add_edge(4, 4);

    assert_eq!(graph.num_nodes(), 4);
    assert_eq!(graph.num_edges(), 4);
}

#[test]
fn closeness_exact_ratios() {
    let mut graph = Graph::new();
    graph.add_edge(0, 1);
    graph.add_edge(1, 2);
    graph.add_edge(2, 3);

    let centrality = closeness_centrality(&graph);
    assert_eq!(
        centrality,
        vec![Some((3, 6)), Some((3, 4)), Some((3, 4)), Some((3, 6))]
    );
}
