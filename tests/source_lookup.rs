use regenerate::source::{default_branches, ref_candidates};
use regenerate::{ProductMap, RepoEntry, RepoSourceWrapper};

fn map(entries: Vec<(&str, RepoEntry)>) -> ProductMap {
    let mut m = ProductMap::new();
    for (k, v) in entries {
        m.insert(k.to_string(), v);
    }
    m
}

fn url(u: &str) -> RepoEntry {
    RepoEntry::Url(u.to_string())
}

fn detailed(u: &str, r: Option<&str>) -> RepoEntry {
    RepoEntry::Detailed {
        url: u.to_string(),
        git_ref: r.map(|s| s.to_string()),
    }
}

fn strings(v: &[&str]) -> Vec<String> {
    v.iter().map(|s| s.to_string()).collect()
}

#[test]
fn remote_only_lookup() {
    let w = RepoSourceWrapper::new(map(vec![("a", url("u_a")), ("b", url("u_b"))]), None);
    assert_eq!(w.get_url("a"), Some("u_a"));
    assert_eq!(w.get_url("b"), Some("u_b"));
    assert_eq!(w.get_url("c"), None);
    assert_eq!(w.has_ref("a"), None);
}

#[test]
fn empty_overlay_matches_remote() {
    let remote = || map(vec![("a", url("u_a")), ("b", detailed("u_b", Some("r")))]);
    let with_empty = RepoSourceWrapper::new(remote(), Some(ProductMap::new()));
    let without = RepoSourceWrapper::new(remote(), None);
    for p in ["a", "b", "c"] {
        assert_eq!(with_empty.get_url(p), without.get_url(p));
        assert_eq!(with_empty.has_ref(p), without.has_ref(p));
    }
}

#[test]
fn local_overlay_takes_precedence() {
    let w = RepoSourceWrapper::new(
        map(vec![("a", url("u_a")), ("b", url("u_b"))]),
        Some(map(vec![("a", detailed("u_a_local", None))])),
    );
    assert_eq!(w.get_url("a"), Some("u_a_local"));
    assert_eq!(w.get_url("b"), Some("u_b"));
}

#[test]
fn local_entry_without_url_shadows_remote() {
    let w = RepoSourceWrapper::new(
        map(vec![("a", detailed("u_a", Some("base")))]),
        Some(map(vec![("a", RepoEntry::Missing)])),
    );
    assert_eq!(w.get_url("a"), None);
    assert_eq!(w.has_ref("a"), None);
}

#[test]
fn pinned_ref_from_remote() {
    let w = RepoSourceWrapper::new(
        map(vec![("a", detailed("u_a", Some("base_branch"))), ("b", url("u_b"))]),
        None,
    );
    assert_eq!(w.get_url("a"), Some("u_a"));
    assert_eq!(w.has_ref("a"), Some("base_branch".to_string()));
    assert_eq!(w.has_ref("b"), None);
}

#[test]
fn preference_list_appends_master() {
    assert_eq!(default_branches(&Some(strings(&["w.1"]))), strings(&["w.1", "master"]));
    assert_eq!(default_branches(&None), strings(&["master"]));
    assert_eq!(default_branches(&Some(vec![])), strings(&["master"]));
}

#[test]
fn pinned_ref_replaces_master() {
    let branches = strings(&["w.1", "master"]);
    assert_eq!(
        ref_candidates(&branches, Some("base_branch".to_string())),
        strings(&["w.1", "base_branch"])
    );
    assert_eq!(ref_candidates(&branches, None), strings(&["w.1", "master"]));
    let dup = strings(&["master", "x", "master"]);
    assert_eq!(ref_candidates(&dup, Some("p".to_string())), strings(&["x", "p"]));
}

#[test]
fn insert_replaces_an_existing_key_in_place() {
    let m = map(vec![("a", url("u1")), ("b", url("u_b")), ("a", detailed("u2", Some("r")))]);
    assert_eq!(m.len(), 2);
    let w = RepoSourceWrapper::new(m, None);
    assert_eq!(w.get_url("a"), Some("u2"));
    assert_eq!(w.has_ref("a"), Some("r".to_string()));
    assert_eq!(w.get_url("b"), Some("u_b"));
}
