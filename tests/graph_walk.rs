use regenerate::{DepGraph, GraphError, NodeKind};

fn graph(names: &[&str], edges: &[(&str, &str, &str)]) -> DepGraph {
    let mut g = DepGraph::new();
    for n in names {
        g.add_or_update_product(n.to_string(), NodeKind::Required);
    }
    for (p, c, sha) in edges {
        g.connect_products(p, c, sha.to_string()).unwrap();
    }
    g
}

#[test]
fn add_and_lookup() {
    let mut g = DepGraph::new();
    assert!(!g.has_product("a"));
    g.add_or_update_product("a".to_string(), NodeKind::Optional);
    assert!(g.has_product("a"));
    assert_eq!(g.len(), 1);
    assert_eq!(g.get_kind(0), NodeKind::Optional);
    g.add_or_update_product("a".to_string(), NodeKind::Required);
    assert_eq!(g.len(), 1);
    assert_eq!(g.get_kind(0), NodeKind::Required);
    g.add_or_update_product("a".to_string(), NodeKind::Optional);
    assert_eq!(g.get_kind(0), NodeKind::Required);
    assert_eq!(g.get_name(0), "a");
}

#[test]
fn connect_requires_both_nodes() {
    let mut g = graph(&["a"], &[]);
    assert_eq!(
        g.connect_products("a", "b", "s".to_string()),
        Err(GraphError::UnknownNode("b".to_string()))
    );
    assert_eq!(
        g.connect_products("x", "a", "s".to_string()),
        Err(GraphError::UnknownNode("x".to_string()))
    );
}

#[test]
fn versions_in_edge_order() {
    let g = graph(&["a", "b", "c"], &[("a", "c", "s1"), ("b", "c", "s2"), ("a", "b", "s3")]);
    assert_eq!(g.product_versions("c"), vec!["s1".to_string(), "s2".to_string()]);
    assert_eq!(g.product_versions("b"), vec!["s3".to_string()]);
    assert!(g.product_versions("a").is_empty());
    assert!(g.product_versions("zzz").is_empty());
}

#[test]
fn post_order_of_diamond() {
    let g = graph(
        &["a", "b", "c", "d"],
        &[("a", "b", "x"), ("a", "c", "x"), ("b", "d", "x"), ("c", "d", "x")],
    );
    assert_eq!(g.dfs_post_order("a"), Ok(vec![3, 1, 2, 0]));
    assert_eq!(
        g.dfs_post_order_names("a"),
        Ok(vec!["d".to_string(), "b".to_string(), "c".to_string(), "a".to_string()])
    );
    assert_eq!(g.dfs_post_order("c"), Ok(vec![3, 2]));
    assert_eq!(g.dfs_post_order("d"), Ok(vec![3]));
}

#[test]
fn post_order_unknown_root() {
    let g = graph(&["a"], &[]);
    assert_eq!(g.dfs_post_order("q"), Err(GraphError::UnknownNode("q".to_string())));
}

#[test]
fn post_order_follows_edge_insertion() {
    let g = graph(&["r", "x", "y"], &[("r", "y", "1"), ("r", "x", "2")]);
    assert_eq!(g.dfs_post_order("r"), Ok(vec![2, 1, 0]));
    assert_eq!(g.children_of(0), vec![2, 1]);
}

#[test]
fn post_order_of_cycle_visits_each_node_once() {
    let g = graph(&["a", "b"], &[("a", "b", "1"), ("b", "a", "2")]);
    assert_eq!(g.dfs_post_order("a"), Ok(vec![1, 0]));
    assert_eq!(g.dfs_post_order("b"), Ok(vec![0, 1]));
}
