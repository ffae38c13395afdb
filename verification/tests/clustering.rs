use dowsing_core::clustering::{
    average_member_tokens, bfs_components, cluster_member_sets, is_reportable_hdl_component, split_if_oversized,
    MAX_CLUSTER_SIZE,
};
use dowsing_core::graph::{weight_order_key_from_bits, SimilarityGraph};
use dowsing_core::types::{FunctionInfo, FunctionKind, Language, NormalizedFunction};
use std::collections::HashMap;

/// The order key of a similarity weight.
fn key(weight: f64) -> u64 {
    weight_order_key_from_bits(weight.to_bits())
}

fn function(i: usize, language: Language) -> FunctionInfo {
    FunctionInfo {
        language,
        file: format!("test{i}.py"),
        module: format!("test{i}"),
        qualified_name: format!("func{i}"),
        class_name: None,
        function_name: format!("func{i}"),
        kind: FunctionKind::Function,
        start_line: 1,
        end_line: 5,
        source_bytes: 100,
        ast_node_count: 10,
        complexity: 2,
        decorators: vec![],
        parameters: vec!["x".to_string()],
        return_annotation: None,
        called_functions: vec![],
        is_public: true,
        is_dunder: false,
        is_test: false,
        is_property: false,
        is_classmethod: false,
        is_staticmethod: false,
        is_async: false,
        parser_recovered: false,
    }
}

#[test]
fn test_basic_clustering() {
    // scores (0,1) 0.90 and (1,2) 0.85, both above the 0.75 threshold
    let mut graph = SimilarityGraph::new(3);
    graph.add_edge(0, 1, key(0.90));
    graph.add_edge(1, 2, key(0.85));
    let functions: Vec<FunctionInfo> = (0..3).map(|i| function(i, Language::Python)).collect();
    let _normalized: Vec<NormalizedFunction> =
        (0..3).map(|i| NormalizedFunction { function_id: i, tokens: vec![] }).collect();
    let clusters = cluster_member_sets(&graph, &functions);
    assert_eq!(clusters.len(), 1);
    assert_eq!(clusters[0].len(), 3);
}

#[test]
fn components_are_listed_largest_first() {
    let mut graph = SimilarityGraph::new(7);
    graph.add_edge(5, 6, key(0.9));
    graph.add_edge(0, 3, key(0.8));
    graph.add_edge(3, 4, key(0.8));
    let components = graph.connected_components();
    assert_eq!(components, vec![vec![0, 3, 4], vec![5, 6], vec![1], vec![2]]);
}

#[test]
fn bfs_respects_node_set_and_removed_edges() {
    let mut graph = SimilarityGraph::new(5);
    graph.add_edge(0, 1, key(0.9));
    graph.add_edge(1, 2, key(0.9));
    graph.add_edge(2, 3, key(0.9));
    graph.add_edge(3, 4, key(0.9));
    assert_eq!(bfs_components(&[4, 0, 1, 2], &graph, &vec![]), vec![vec![0, 1, 2], vec![4]]);
    assert_eq!(bfs_components(&[0, 1, 2, 3, 4], &graph, &vec![(2, 3)]), vec![vec![0, 1, 2], vec![3, 4]]);
}

#[test]
fn nodes_outside_the_graph_are_isolated() {
    let mut graph = SimilarityGraph::new(3);
    graph.add_edge(0, 1, key(0.9));
    assert_eq!(bfs_components(&[7, 1, 0, 7, 5], &graph, &vec![]), vec![vec![0, 1], vec![5], vec![7]]);
    graph.add_edge(1, 2, key(0.95));
    assert_eq!(split_if_oversized(vec![0, 1, 2, 9], &graph, 2), vec![vec![1, 2], vec![0], vec![9]]);
}

#[test]
fn small_components_stay_whole() {
    let mut graph = SimilarityGraph::new(3);
    graph.add_edge(0, 1, key(0.8));
    let groups = split_if_oversized(vec![2, 0, 1], &graph, 3);
    assert_eq!(groups, vec![vec![2, 0, 1]]);
}

#[test]
fn oversized_components_lose_weakest_edges_first() {
    // a path 0-1-2-3-4-5 whose middle edge is the weakest
    let mut graph = SimilarityGraph::new(6);
    graph.add_edge(0, 1, key(0.95));
    graph.add_edge(1, 2, key(0.90));
    graph.add_edge(2, 3, key(0.76));
    graph.add_edge(3, 4, key(0.91));
    graph.add_edge(4, 5, key(0.97));
    let groups = split_if_oversized(vec![0, 1, 2, 3, 4, 5], &graph, 3);
    assert_eq!(groups, vec![vec![0, 1, 2], vec![3, 4, 5]]);
    // with a limit of two, the next weakest edges go as well
    let groups = split_if_oversized(vec![0, 1, 2, 3, 4, 5], &graph, 2);
    assert_eq!(groups, vec![vec![0, 1], vec![4, 5], vec![2], vec![3]]);
}

#[test]
fn a_fitting_component_is_returned_as_given_even_with_repeats() {
    let graph = SimilarityGraph::new(6);
    assert_eq!(split_if_oversized(vec![5, 5], &graph, 20), vec![vec![5, 5]]);
    // nodes outside the graph do not matter while the component fits
    assert_eq!(split_if_oversized(vec![9, 7], &graph, 2), vec![vec![9, 7]]);
}

#[test]
fn a_repeated_member_counts_once_when_splitting() {
    let mut graph = SimilarityGraph::new(3);
    graph.add_edge(0, 1, key(0.8));
    graph.add_edge(1, 2, key(0.9));
    assert_eq!(split_if_oversized(vec![0, 1, 1, 2], &graph, 2), vec![vec![1, 2], vec![0]]);
    assert_eq!(split_if_oversized(vec![0, 1, 1, 2], &graph, 0), vec![vec![0], vec![1], vec![2]]);
}

#[test]
fn weight_keys_order_as_the_weights() {
    let weights = [f64::NEG_INFINITY, -2.5, -1.0, -f64::MIN_POSITIVE, 0.0, f64::MIN_POSITIVE, 0.5, 0.75, 1.0, f64::INFINITY];
    for pair in weights.windows(2) {
        assert!(key(pair[0]) < key(pair[1]), "{} < {}", pair[0], pair[1]);
    }
    assert_eq!(key(-0.0), key(0.0));
    assert_eq!(key(0.0), 1u64 << 63);
    assert_eq!(key(1.0), (1u64 << 63) + 1.0f64.to_bits());
    assert_eq!(key(-1.0), (1u64 << 63) - 1.0f64.to_bits());
}

#[test]
fn equal_weights_are_removed_in_member_order() {
    // a triangle of equal weights: the edges go in the order (0,1), (0,2), (1,2)
    let mut graph = SimilarityGraph::new(3);
    graph.add_edge(0, 1, key(0.8));
    graph.add_edge(1, 2, key(0.8));
    graph.add_edge(0, 2, key(0.8));
    let groups = split_if_oversized(vec![0, 1, 2], &graph, 2);
    assert_eq!(groups, vec![vec![1, 2], vec![0]]);
}

#[test]
fn a_limit_of_zero_leaves_single_nodes() {
    let mut graph = SimilarityGraph::new(2);
    graph.add_edge(0, 1, key(0.8));
    assert_eq!(split_if_oversized(vec![0, 1], &graph, 0), vec![vec![0], vec![1]]);
}

#[test]
fn large_components_are_split_to_the_cluster_limit() {
    let n = 30;
    let mut graph = SimilarityGraph::new(n);
    for i in 0..n - 1 {
        let weight = if i == 14 { 0.76 } else { 0.9 };
        graph.add_edge(i, i + 1, key(weight));
    }
    let functions: Vec<FunctionInfo> = (0..n).map(|i| function(i, Language::TypeScript)).collect();
    let clusters = cluster_member_sets(&graph, &functions);
    assert_eq!(clusters.len(), 2);
    assert!(clusters.iter().all(|c| c.len() <= MAX_CLUSTER_SIZE));
    assert_eq!(clusters[0], (0..15).collect::<Vec<_>>());
    assert_eq!(clusters[1], (15..30).collect::<Vec<_>>());
}

#[test]
fn hdl_units_are_never_clustered() {
    let mut graph = SimilarityGraph::new(4);
    graph.add_edge(0, 1, key(0.99));
    graph.add_edge(2, 3, key(0.99));
    let functions = vec![
        function(0, Language::Verilog),
        function(1, Language::Verilog),
        function(2, Language::C),
        function(3, Language::C),
    ];
    let clusters = cluster_member_sets(&graph, &functions);
    assert_eq!(clusters, vec![vec![2, 3]]);
    let lookup: HashMap<usize, &NormalizedFunction> = HashMap::new();
    assert!(!is_reportable_hdl_component(&[0, 1], &functions, &lookup));
    assert!(is_reportable_hdl_component(&[2, 3], &functions, &lookup));
    // unknown members are not reportable either
    assert!(!is_reportable_hdl_component(&[2, 9], &functions, &lookup));
}

#[test]
fn singletons_are_not_clusters() {
    let graph = SimilarityGraph::new(3);
    let functions: Vec<FunctionInfo> = (0..3).map(|i| function(i, Language::Python)).collect();
    assert!(cluster_member_sets(&graph, &functions).is_empty());
}

#[test]
fn average_tokens_of_members() {
    let mut functions: Vec<FunctionInfo> = (0..3).map(|i| function(i, Language::Python)).collect();
    functions[0].source_bytes = 10; // 3 tokens
    functions[1].source_bytes = 16; // 4 tokens
    functions[2].source_bytes = 1; // 1 token
    assert_eq!(average_member_tokens(&[0, 1, 2], &functions), Some(2));
    // an unknown member counts towards the size but adds no tokens
    assert_eq!(average_member_tokens(&[0, 1, 9], &functions), Some(2));
    assert_eq!(average_member_tokens(&[], &functions), Some(0));
    functions[0].source_bytes = usize::MAX;
    functions[1].source_bytes = usize::MAX;
    functions[2].source_bytes = usize::MAX;
    assert_eq!(average_member_tokens(&[0, 1, 2, 0, 1, 2], &functions), None);
}

#[test]
fn clusters_keep_to_one_language() {
    let languages = [Language::JavaScript, Language::JavaScript, Language::TypeScript, Language::TypeScript, Language::JavaScript];
    let functions: Vec<FunctionInfo> = languages.iter().enumerate().map(|(i, &l)| function(i, l)).collect();
    let mut graph = SimilarityGraph::new(5);
    graph.add_edge(0, 1, key(0.9));
    graph.add_edge(1, 4, key(0.8));
    graph.add_edge(2, 3, key(0.95));
    let clusters = cluster_member_sets(&graph, &functions);
    assert_eq!(clusters, vec![vec![0, 1, 4], vec![2, 3]]);
    for cluster in &clusters {
        assert!(cluster.iter().all(|&i| functions[i].language == functions[cluster[0]].language));
    }
}
