use regenerate::identity::{identity_input, make_product_id};
use regenerate::{DepGraph, GraphError, NodeKind};

const SHA1_ABC: &str = "a9993e364706816aba3e25717850c26c9cd0d89d";

fn two_products() -> (DepGraph, Vec<String>) {
    let mut g = DepGraph::new();
    g.add_or_update_product("a".to_string(), NodeKind::Required);
    g.add_or_update_product("b".to_string(), NodeKind::Required);
    g.connect_products("a", "b", "ab".to_string()).unwrap();
    (g, vec!["c".to_string(), "ab".to_string()])
}

#[test]
fn identity_of_root_and_dependency() {
    let (g, heads) = two_products();
    assert_eq!(identity_input(&g, &heads, "a"), Ok("abc".to_string()));
    assert_eq!(make_product_id(&g, &heads, "a"), Ok(SHA1_ABC.to_string()));
}

#[test]
fn identity_of_leaf_is_digest_of_head() {
    let mut g = DepGraph::new();
    g.add_or_update_product("p".to_string(), NodeKind::Required);
    let heads = vec!["abc".to_string()];
    assert_eq!(make_product_id(&g, &heads, "p"), Ok(SHA1_ABC.to_string()));
}

#[test]
fn identity_uses_first_recorded_version() {
    let (mut g, mut heads) = two_products();
    g.add_or_update_product("z".to_string(), NodeKind::Required);
    heads.push("zz".to_string());
    g.connect_products("z", "b", "later".to_string()).unwrap();
    heads[1] = "moved".to_string();
    assert_eq!(identity_input(&g, &heads, "a"), Ok("abc".to_string()));
    assert_eq!(identity_input(&g, &heads, "z"), Ok("abzz".to_string()));
}

#[test]
fn identity_is_deterministic() {
    let (g, heads) = two_products();
    let first = make_product_id(&g, &heads, "a").unwrap();
    let second = make_product_id(&g, &heads, "a").unwrap();
    assert_eq!(first, second);
    assert_eq!(first.len(), 40);
    assert_ne!(first, "abc");
}

#[test]
fn identity_of_unknown_product() {
    let (g, heads) = two_products();
    assert_eq!(
        make_product_id(&g, &heads, "nope"),
        Err(GraphError::UnknownNode("nope".to_string()))
    );
}

#[test]
fn duplicate_edge_keeps_identity() {
    let (mut g, heads) = two_products();
    let before = make_product_id(&g, &heads, "a").unwrap();
    g.connect_products("a", "b", "ab".to_string()).unwrap();
    assert_eq!(g.product_versions("b"), vec!["ab".to_string(), "ab".to_string()]);
    assert_eq!(identity_input(&g, &heads, "a"), Ok("abc".to_string()));
    assert_eq!(make_product_id(&g, &heads, "a").unwrap(), before);
}
