use regenerate::identity::make_product_id;
use regenerate::{ResolveStep, Resolver};

fn strings(v: &[&str]) -> Vec<String> {
    v.iter().map(|s| s.to_string()).collect()
}

fn fetched(s: ResolveStep) -> Option<String> {
    match s {
        ResolveStep::Fetch(p) => Some(p),
        ResolveStep::Done => None,
    }
}

#[test]
fn resolve_two_products() {
    let mut r = Resolver::new("a".to_string(), "c".to_string(), strings(&["b"]));
    assert_eq!(fetched(r.step()), Some("b".to_string()));
    assert_eq!(r.awaiting(), Some(&"b".to_string()));
    assert_eq!(fetched(r.step()), Some("b".to_string()));
    r.supply("ab".to_string(), vec![]);
    assert_eq!(r.awaiting(), None);
    assert_eq!(fetched(r.step()), None);
    assert_eq!(r.graph().product_versions("b"), strings(&["ab"]));
    assert_eq!(r.heads(), &strings(&["c", "ab"]));
    let (g, heads) = r.finish();
    assert_eq!(
        make_product_id(&g, &heads, "a"),
        Ok("a9993e364706816aba3e25717850c26c9cd0d89d".to_string())
    );
}

#[test]
fn resolve_shared_dependency_once() {
    let mut r = Resolver::new("a".to_string(), "ha".to_string(), strings(&["b", "c"]));
    assert_eq!(fetched(r.step()), Some("b".to_string()));
    r.supply("hb".to_string(), strings(&["c"]));
    assert_eq!(fetched(r.step()), Some("c".to_string()));
    r.supply("hc".to_string(), vec![]);
    assert_eq!(fetched(r.step()), None);
    let g = r.graph();
    assert_eq!(g.len(), 3);
    assert_eq!(g.product_versions("c"), strings(&["hc", "hc"]));
    assert_eq!(g.product_versions("b"), strings(&["hb"]));
    assert_eq!(
        g.dfs_post_order_names("a"),
        Ok(strings(&["c", "b", "a"]))
    );
}

#[test]
fn resolve_product_without_dependencies() {
    let mut r = Resolver::new("solo".to_string(), "h".to_string(), vec![]);
    assert_eq!(fetched(r.step()), None);
    assert_eq!(r.graph().len(), 1);
}
