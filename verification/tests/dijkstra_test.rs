use learn_rs::my_algorithms::dijkstra::{
    add_edge, graph_map_to_matrix, graph_map_to_vector, shortest_path_from_map_graph,
    shortest_path_from_tree_string, shortest_path_tree_from_map_graph,
    shortest_path_tree_from_vector_graph, GraphMap, ShortestPathString, ShortestPathTreeNodeString,
    ShortestPathTreeString,
};

fn build_graph(edges: &[(&str, &str, u32)]) -> GraphMap {
    let mut graph = GraphMap::new();
    edges.iter().for_each(|x| add_edge(&mut graph, x.0, x.1, x.2));
    graph
}

fn build_tree(node: &str, records: &[(&str, u32, &str)]) -> ShortestPathTreeString {
    ShortestPathTreeString {
        node: node.to_string(),
        edges: records
            .iter()
            .map(|x| ShortestPathTreeNodeString {
                node: x.0.to_string(),
                distance: x.1,
                previous: x.2.to_string(),
            })
            .collect(),
    }
}

fn build_paths(paths: &[(&str, &str, u32, &[&str])]) -> Vec<ShortestPathString> {
    paths
        .iter()
        .map(|x| ShortestPathString {
            from: x.0.to_string(),
            to: x.1.to_string(),
            distance: x.2,
            path: x.3.iter().map(|v| v.to_string()).collect(),
        })
        .collect()
}

fn test_sample1() -> (GraphMap, ShortestPathTreeString, Vec<ShortestPathString>) {
    let graph = build_graph(&[
        ("A", "B", 4),
        ("A", "H", 8),
        ("B", "C", 8),
        ("B", "H", 11),
        ("C", "D", 7),
        ("C", "I", 2),
        ("C", "F", 3),
        ("D", "E", 9),
        ("D", "F", 14),
        ("E", "F", 10),
        ("F", "G", 2),
        ("G", "H", 1),
        ("G", "I", 6),
        ("H", "I", 7),
    ]);
    let expected_tree = build_tree(
        "A",
        &[
            ("A", 0, "A"),
            ("B", 4, "A"),
            ("C", 12, "B"),
            ("D", 19, "C"),
            ("E", 21, "F"),
            ("F", 11, "G"),
            ("G", 9, "H"),
            ("H", 8, "A"),
            ("I", 14, "C"),
        ],
    );
    let expected_paths = build_paths(&[
        ("A", "B", 4, &["A", "B"]),
        ("A", "C", 12, &["A", "B", "C"]),
        ("A", "D", 19, &["A", "B", "C", "D"]),
        ("A", "E", 21, &["A", "H", "G", "F", "E"]),
        ("A", "F", 11, &["A", "H", "G", "F"]),
        ("A", "G", 9, &["A", "H", "G"]),
        ("A", "H", 8, &["A", "H"]),
        ("A", "I", 14, &["A", "B", "C", "I"]),
    ]);
    (graph, expected_tree, expected_paths)
}

fn test_sample2() -> (GraphMap, ShortestPathTreeString, Vec<ShortestPathString>) {
    let graph = build_graph(&[
        ("A", "B", 6),
        ("A", "D", 1),
        ("B", "D", 2),
        ("B", "E", 2),
        ("B", "C", 5),
        ("C", "E", 5),
        ("D", "E", 1),
    ]);
    let expected_tree = build_tree(
        "A",
        &[
            ("A", 0, "A"),
            ("B", 3, "D"),
            ("C", 7, "E"),
            ("D", 1, "A"),
            ("E", 2, "D"),
        ],
    );
    let expected_paths = build_paths(&[
        ("A", "B", 3, &["A", "D", "B"]),
        ("A", "C", 7, &["A", "D", "E", "C"]),
        ("A", "D", 1, &["A", "D"]),
        ("A", "E", 2, &["A", "D", "E"]),
    ]);
    (graph, expected_tree, expected_paths)
}

fn test_sample3() -> (GraphMap, ShortestPathTreeString, Vec<ShortestPathString>) {
    let graph = build_graph(&[
        ("A", "B", 4),
        ("A", "C", 5),
        ("B", "C", 11),
        ("B", "D", 9),
        ("B", "E", 7),
        ("C", "E", 3),
        ("D", "E", 13),
        ("D", "F", 2),
        ("E", "F", 6),
    ]);
    let expected_tree = build_tree(
        "A",
        &[
            ("A", 0, "A"),
            ("B", 4, "A"),
            ("C", 5, "A"),
            ("D", 13, "B"),
            ("E", 8, "C"),
            ("F", 14, "E"),
        ],
    );
    let expected_paths = build_paths(&[
        ("A", "B", 4, &["A", "B"]),
        ("A", "C", 5, &["A", "C"]),
        ("A", "D", 13, &["A", "B", "D"]),
        ("A", "E", 8, &["A", "C", "E"]),
        ("A", "F", 14, &["A", "C", "E", "F"]),
    ]);
    (graph, expected_tree, expected_paths)
}

fn test_sample4() -> (GraphMap, ShortestPathTreeString, Vec<ShortestPathString>) {
    let graph = build_graph(&[
        ("A", "B", 7),
        ("A", "C", 9),
        ("A", "F", 14),
        ("B", "C", 10),
        ("B", "D", 15),
        ("C", "D", 11),
        ("C", "F", 2),
        ("D", "E", 6),
        ("E", "F", 9),
    ]);
    let expected_tree = build_tree(
        "A",
        &[
            ("A", 0, "A"),
            ("B", 7, "A"),
            ("C", 9, "A"),
            ("D", 20, "C"),
            ("E", 20, "F"),
            ("F", 11, "C"),
        ],
    );
    let expected_paths = build_paths(&[
        ("A", "B", 7, &["A", "B"]),
        ("A", "C", 9, &["A", "C"]),
        ("A", "D", 20, &["A", "C", "D"]),
        ("A", "E", 20, &["A", "C", "F", "E"]),
        ("A", "F", 11, &["A", "C", "F"]),
    ]);
    (graph, expected_tree, expected_paths)
}

#[test]
fn graph_matrix_sample1_test() {
    let (graph_map, expected_shortest_path_tree, expected_shortest_paths) = test_sample1();
    assert!(!graph_map.is_empty());
    assert!(!expected_shortest_path_tree.edges.is_empty());
    assert!(!expected_shortest_paths.is_empty());

    let (names, graph_matrix) = graph_map_to_matrix(&graph_map);
    assert!(!names.is_empty());
    assert_eq!(names.len(), graph_map.len());

    assert!(!graph_matrix.is_empty());
    assert_eq!(graph_matrix.len(), names.len());
}

fn graph_vector_test(
    fn_test_input: fn() -> (GraphMap, ShortestPathTreeString, Vec<ShortestPathString>),
) {
    let (graph_map, expected_shortest_path_tree, expected_shortest_paths) = fn_test_input();
    assert!(!graph_map.is_empty());
    assert!(!expected_shortest_path_tree.edges.is_empty());
    assert!(!expected_shortest_paths.is_empty());

    let graph_vector = graph_map_to_vector(&graph_map).unwrap();
    assert!(!graph_vector.is_empty());

    let option_shortest_path_tree =
        shortest_path_tree_from_vector_graph(&graph_vector, &expected_shortest_path_tree.node);
    assert!(option_shortest_path_tree.is_some());

    let shortest_path_tree = option_shortest_path_tree.unwrap();
    assert_eq!(shortest_path_tree, expected_shortest_path_tree);

    assert!(!expected_shortest_paths.is_empty());
    assert_eq!(expected_shortest_paths.len(), graph_map.len() - 1);
    for expected_shortest_path in expected_shortest_paths {
        let shortest_path =
            shortest_path_from_tree_string(&expected_shortest_path.to, &shortest_path_tree);
        assert!(shortest_path.is_some());
        assert_eq!(shortest_path.unwrap(), expected_shortest_path);
    }
}

#[test]
fn graph_vector_sample1_test() {
    graph_vector_test(test_sample1);
}

#[test]
fn graph_vector_sample2_test() {
    graph_vector_test(test_sample2);
}

#[test]
fn graph_vector_sample3_test() {
    graph_vector_test(test_sample3);
}

#[test]
fn graph_vector_sample4_test() {
    graph_vector_test(test_sample4);
}

fn shortest_tree_test(
    fn_test_input: fn() -> (GraphMap, ShortestPathTreeString, Vec<ShortestPathString>),
) {
    let (graph_map, expected_shortest_path_tree, expected_shortest_paths) = fn_test_input();
    assert!(!graph_map.is_empty());
    assert!(!expected_shortest_path_tree.edges.is_empty());
    assert!(!expected_shortest_paths.is_empty());

    let option_shortest_path_tree =
        shortest_path_tree_from_map_graph(&graph_map, &expected_shortest_path_tree.node);
    assert!(option_shortest_path_tree.is_some());

    let shortest_path_tree = option_shortest_path_tree.unwrap();
    assert_eq!(shortest_path_tree, expected_shortest_path_tree);

    assert!(!expected_shortest_paths.is_empty());
    assert_eq!(expected_shortest_paths.len(), graph_map.len() - 1);
    for expected_shortest_path in expected_shortest_paths {
        let shortest_path =
            shortest_path_from_tree_string(&expected_shortest_path.to, &shortest_path_tree);
        assert!(shortest_path.is_some());
        assert_eq!(shortest_path.unwrap(), expected_shortest_path);
    }
}

#[test]
fn shortest_tree_sample1_test() {
    shortest_tree_test(test_sample1)
}

#[test]
fn shortest_tree_sample2_test() {
    shortest_tree_test(test_sample2)
}

#[test]
fn shortest_tree_sample3_test() {
    shortest_tree_test(test_sample3)
}

#[test]
fn shortest_tree_sample4_test() {
    shortest_tree_test(test_sample4)
}

#[test]
fn shortest_path_test() {
    let (graph, _, _) = test_sample1();
    assert!(!graph.is_empty());

    let from = "A";
    let expected = [
        ("B", 4, vec!["A", "B"]),
        ("C", 12, vec!["A", "B", "C"]),
        ("D", 19, vec!["A", "B", "C", "D"]),
        ("E", 21, vec!["A", "H", "G", "F", "E"]),
        ("F", 11, vec!["A", "H", "G", "F"]),
        ("G", 9, vec!["A", "H", "G"]),
        ("H", 8, vec!["A", "H"]),
        ("I", 14, vec!["A", "B", "C", "I"]),
    ];
    for (to, distance, path) in expected {
        let shortest_path = shortest_path_from_map_graph(&graph, from, to);
        assert_eq!(
            shortest_path.unwrap(),
            ShortestPathString {
                from: from.to_string(),
                to: to.to_string(),
                distance,
                path: path.iter().map(|n| n.to_string()).collect()
            }
        );
    }
}

#[test]
fn tree_building_is_deterministic() {
    let (graph, _, _) = test_sample1();
    let t1 = shortest_path_tree_from_map_graph(&graph, "A").unwrap();
    let t2 = shortest_path_tree_from_map_graph(&graph, "A").unwrap();
    assert_eq!(t1, t2);
    let v = graph_map_to_vector(&graph).unwrap();
    let t3 = shortest_path_tree_from_vector_graph(&v, "A").unwrap();
    assert_eq!(t1, t3);
}

#[test]
fn shortest_path_is_symmetric() {
    let (graph, _, _) = test_sample2();
    let ab = shortest_path_from_map_graph(&graph, "A", "C").unwrap();
    let ba = shortest_path_from_map_graph(&graph, "C", "A").unwrap();
    assert_eq!(ab.distance, ba.distance);
}

#[test]
fn unreachable_node_has_no_path() {
    // two disconnected components
    let graph = build_graph(&[("A", "B", 1), ("C", "D", 2)]);
    assert!(shortest_path_from_map_graph(&graph, "A", "C").is_none());
    assert!(shortest_path_from_map_graph(&graph, "A", "Z").is_none());
    let tree = shortest_path_tree_from_map_graph(&graph, "A").unwrap();
    assert_eq!(tree.edges.len(), 2);
    assert!(shortest_path_from_tree_string("C", &tree).is_none());
}

#[test]
fn missing_source_gives_no_tree() {
    let (graph, _, _) = test_sample3();
    assert!(shortest_path_tree_from_map_graph(&graph, "Z").is_none());
}

#[test]
fn add_edge_overwrites_weight() {
    let mut graph = GraphMap::new();
    add_edge(&mut graph, "A", "B", 9);
    add_edge(&mut graph, "A", "B", 4);
    assert_eq!(graph.len(), 2);
    let path = shortest_path_from_map_graph(&graph, "A", "B").unwrap();
    assert_eq!(path.distance, 4);
}
