use std::path::PathBuf;

use regenerate::{GraphError, RegenError, RegenOptions};

fn options(branches: Option<Vec<String>>) -> RegenOptions {
    RegenOptions {
        branches,
        local_yaml: Some(PathBuf::from("local.yaml")),
        clone_root: "clones/".to_string(),
        install_root: "install/".to_string(),
        version: "v".to_string(),
        build_tool: "tool.sh".to_string(),
        tag: None,
        remote_package_url: "https://example.org/repos.yaml".to_string(),
    }
}

#[test]
fn branch_preference_of_options() {
    assert_eq!(
        options(Some(vec!["w.2019.20".to_string()])).branch_preference(),
        vec!["w.2019.20".to_string(), "master".to_string()]
    );
    assert_eq!(options(None).branch_preference(), vec!["master".to_string()]);
}

#[test]
fn graph_error_becomes_unknown_node() {
    match RegenError::from_graph(GraphError::UnknownNode("x".to_string())) {
        RegenError::UnknownNode(n) => assert_eq!(n, "x"),
        other => panic!("unexpected {:?}", other),
    }
}
