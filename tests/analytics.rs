use nix_tree::path_stats::{
    build_adjacency, calculate_added_size_for_path, calculate_closure_set, calculate_stats, sizes_fit, sort_paths,
    PathStats, SortOrder,
};
use nix_tree::store_path::{StorePath, StorePathGraph};

fn id(name: &str) -> String {
    format!("/nix/store/h{}-{}", name.to_lowercase(), name)
}

fn node(name: &str, size: u64, refs: &[&str]) -> StorePath {
    StorePath::new(
        id(name),
        size,
        None,
        refs.iter().map(|r| id(r)).collect(),
        Vec::new(),
    )
    .unwrap()
}

fn graph(nodes: Vec<StorePath>) -> StorePathGraph {
    let mut g = StorePathGraph::new();
    for n in nodes {
        g.add_path(n);
    }
    g
}

fn stat<'a>(g: &StorePathGraph, stats: &'a [PathStats], name: &str) -> &'a PathStats {
    &stats[g.index_of(&id(name)).unwrap()]
}

fn shared_leaf_graph() -> StorePathGraph {
    graph(vec![
        node("R", 10, &["A", "B"]),
        node("A", 20, &["C"]),
        node("B", 15, &["C"]),
        node("C", 5, &[]),
    ])
}

#[test]
fn closure_of_leaf_is_own_size() {
    let g = graph(vec![node("L", 42, &[])]);
    let stats = calculate_stats(&g);
    assert_eq!(stat(&g, &stats, "L").closure_size, 42);
}

#[test]
fn closure_of_diamond_counts_shared_node_once() {
    let g = graph(vec![
        node("A", 1, &["B", "C"]),
        node("B", 2, &["D"]),
        node("C", 4, &["D"]),
        node("D", 8, &[]),
    ]);
    let stats = calculate_stats(&g);
    assert_eq!(stat(&g, &stats, "A").closure_size, 15);
    assert_eq!(stat(&g, &stats, "B").closure_size, 10);
    assert_eq!(stat(&g, &stats, "C").closure_size, 12);
    assert_eq!(stat(&g, &stats, "D").closure_size, 8);
}

#[test]
fn scenario_shared_leaf_sizes() {
    let g = shared_leaf_graph();
    let stats = calculate_stats(&g);
    assert_eq!(stat(&g, &stats, "R").closure_size, 50);
    assert_eq!(stat(&g, &stats, "A").closure_size, 25);
    assert_eq!(stat(&g, &stats, "B").closure_size, 20);
    assert_eq!(stat(&g, &stats, "C").closure_size, 5);
    // C's referrers A and B reference nothing besides C, so C has no
    // siblings and nothing is subtracted from its closure.
    assert_eq!(stat(&g, &stats, "C").added_size, 5);
    // A and B are siblings under R: the shared C is subtracted from both.
    assert_eq!(stat(&g, &stats, "A").added_size, 20);
    assert_eq!(stat(&g, &stats, "B").added_size, 15);
    assert_eq!(stat(&g, &stats, "R").added_size, 50);
}

#[test]
fn added_size_never_exceeds_closure_size() {
    let g = graph(vec![
        node("R", 10, &["A", "B", "X"]),
        node("A", 20, &["C", "D"]),
        node("B", 15, &["C"]),
        node("C", 5, &[]),
        node("D", 7, &["A"]),
        node("X", 3, &["missing"]),
    ]);
    let stats = calculate_stats(&g);
    for s in &stats {
        assert!(s.added_size <= s.closure_size);
    }
}

#[test]
fn reverse_index_agrees_with_references() {
    let g = shared_leaf_graph();
    let stats = calculate_stats(&g);
    for (i, n) in g.paths.iter().enumerate() {
        for (j, p) in g.paths.iter().enumerate() {
            let is_parent = stats[i].immediate_parents.contains(&p.path);
            let is_reference = g.get_references(&p.path).contains(&n.path);
            assert_eq!(is_parent, is_reference, "{} {}", i, j);
        }
    }
    assert_eq!(
        stat(&g, &stats, "C").immediate_parents,
        vec![id("A"), id("B")]
    );
    assert!(stat(&g, &stats, "R").immediate_parents.is_empty());
}

#[test]
fn missing_reference_is_a_dead_end() {
    let g = graph(vec![node("A", 3, &["gone", "B"]), node("B", 4, &[])]);
    assert_eq!(g.get_references(&id("A")), vec![id("B")]);
    let stats = calculate_stats(&g);
    assert_eq!(stat(&g, &stats, "A").closure_size, 7);
    assert!(g.get_references(&id("gone")).is_empty());
}

#[test]
fn cycle_in_input_terminates() {
    let g = graph(vec![node("A", 1, &["B"]), node("B", 2, &["A"])]);
    let adj = build_adjacency(&g);
    assert_eq!(adj, vec![vec![1], vec![0]]);
    let mask = calculate_closure_set(&g, &adj, 0);
    assert_eq!(mask, vec![true, true]);
    let stats = calculate_stats(&g);
    assert_eq!(stats[0].closure_size, 3);
    assert_eq!(stats[1].closure_size, 3);
}

#[test]
fn lazy_added_size_matches_table() {
    let g = shared_leaf_graph();
    let stats = calculate_stats(&g);
    for name in ["R", "A", "B", "C"] {
        assert_eq!(
            calculate_added_size_for_path(&id(name), &g),
            stat(&g, &stats, name).added_size
        );
    }
    assert_eq!(calculate_added_size_for_path(&id("nowhere"), &g), 0);
}

#[test]
fn sizes_fit_detects_overflow() {
    let g = shared_leaf_graph();
    assert!(sizes_fit(&g));
    let big = graph(vec![node("A", u64::MAX, &[]), node("B", 1, &[])]);
    assert!(!sizes_fit(&big));
    let edge = graph(vec![node("A", u64::MAX - 1, &[]), node("B", 1, &[])]);
    assert!(sizes_fit(&edge));
}

#[test]
fn sort_by_name_twice_is_identity() {
    let g = shared_leaf_graph();
    let stats = calculate_stats(&g);
    let mut items = vec![id("C"), id("A"), id("R"), id("B")];
    sort_paths(&mut items, &g, &stats, SortOrder::Alphabetical);
    assert_eq!(items, vec![id("A"), id("B"), id("C"), id("R")]);
    let once = items.clone();
    sort_paths(&mut items, &g, &stats, SortOrder::Alphabetical);
    assert_eq!(items, once);
}

#[test]
fn sort_by_name_is_lexicographic() {
    let g = StorePathGraph::new();
    let mut items = vec![
        "b".to_string(),
        "ab".to_string(),
        "a".to_string(),
        "B".to_string(),
    ];
    sort_paths(&mut items, &g, &Vec::new(), SortOrder::Alphabetical);
    assert_eq!(items, vec!["B", "a", "ab", "b"]);
}

#[test]
fn sort_by_closure_size_is_non_increasing() {
    let g = shared_leaf_graph();
    let stats = calculate_stats(&g);
    let mut items = vec![id("C"), id("A"), id("unknown"), id("R"), id("B")];
    sort_paths(&mut items, &g, &stats, SortOrder::ClosureSize);
    assert_eq!(
        items,
        vec![id("R"), id("A"), id("B"), id("C"), id("unknown")]
    );
}

#[test]
fn sort_by_added_size_keeps_ties_in_input_order() {
    let g = graph(vec![
        node("P", 1, &["X", "Y"]),
        node("X", 5, &[]),
        node("Y", 5, &[]),
    ]);
    let stats = calculate_stats(&g);
    let mut items = vec![id("Y"), id("P"), id("X")];
    sort_paths(&mut items, &g, &stats, SortOrder::AddedSize);
    assert_eq!(items, vec![id("P"), id("Y"), id("X")]);
}

#[test]
fn sort_order_cycles() {
    assert_eq!(SortOrder::Alphabetical.next(), SortOrder::ClosureSize);
    assert_eq!(SortOrder::ClosureSize.next(), SortOrder::AddedSize);
    assert_eq!(SortOrder::AddedSize.next(), SortOrder::Alphabetical);
    assert_eq!(SortOrder::Alphabetical.as_str(), "name");
    assert_eq!(SortOrder::ClosureSize.as_str(), "closure size");
    assert_eq!(SortOrder::AddedSize.as_str(), "added size");
}
