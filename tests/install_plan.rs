use regenerate::identity::make_product_id;
use regenerate::install::{
    build_args, build_verbs, env_order, env_table, local_db_path, table_rel_path, EnvTable,
};
use regenerate::{DepGraph, GraphError, InstallAction, Installer, NodeKind, Phase};

fn strings(v: &[&str]) -> Vec<String> {
    v.iter().map(|s| s.to_string()).collect()
}

fn sample() -> (DepGraph, Vec<String>) {
    let mut g = DepGraph::new();
    for n in ["scipipe_conda", "a", "b"] {
        g.add_or_update_product(n.to_string(), NodeKind::Required);
    }
    g.connect_products("a", "b", "ab".to_string()).unwrap();
    (g, strings(&["s0", "c", "ab"]))
}

#[test]
fn bootstrap_env_is_prepended() {
    assert_eq!(
        env_order("a", strings(&["b", "a"])),
        strings(&["scipipe_conda", "b", "a"])
    );
    assert_eq!(
        env_order("a", strings(&["scipipe_conda", "a"])),
        strings(&["scipipe_conda", "a"])
    );
    assert_eq!(env_order("scipipe_conda", strings(&["scipipe_conda"])), strings(&["scipipe_conda"]));
    assert_eq!(env_order("miniconda_lsst", strings(&["miniconda_lsst"])), strings(&["miniconda_lsst"]));
}

#[test]
fn build_tool_command_line() {
    assert_eq!(
        build_args("afw", "v1", "Linux64", "/opt/afw/v1", "config"),
        strings(&["PRODUCT=afw", "VERSION=v1", "FLAVOR=Linux64", "PREFIX=/opt/afw/v1", "config"])
    );
    assert_eq!(build_verbs(), strings(&["fetch", "prep", "config", "build", "install"]));
    assert_eq!(local_db_path("/r/ups/a.table"), "LOCAL:/r/ups/a.table");
    assert_eq!(table_rel_path("afw"), "ups/afw.table");
}

#[test]
fn install_builds_dependencies_first() {
    let (g, heads) = sample();
    let id_a = make_product_id(&g, &heads, "a").unwrap();
    let id_b = make_product_id(&g, &heads, "b").unwrap();
    let id_s = make_product_id(&g, &heads, "scipipe_conda").unwrap();
    let mut inst = Installer::new(g, heads, vec![]);
    assert_eq!(inst.state(), None);

    match inst.install("a").unwrap() {
        InstallAction::Query { product, id } => {
            assert_eq!(product, "a");
            assert_eq!(id, id_a);
        }
        _ => panic!("expected a query for a"),
    }
    match inst.answer(false).unwrap() {
        InstallAction::Query { product, id } => {
            assert_eq!(product, "scipipe_conda");
            assert_eq!(id, id_s);
        }
        _ => panic!("expected a query for scipipe_conda"),
    }
    match inst.answer(false).unwrap() {
        InstallAction::Build { product, env_order, .. } => {
            assert_eq!(product, "scipipe_conda");
            assert_eq!(env_order, strings(&["scipipe_conda"]));
        }
        _ => panic!("expected a build of scipipe_conda"),
    }
    assert_eq!(inst.state(), Some(Phase::AwaitBuild));
    match inst.finished().unwrap() {
        InstallAction::Query { product, id } => {
            assert_eq!(product, "b");
            assert_eq!(id, id_b);
        }
        _ => panic!("expected a query for b"),
    }
    match inst.answer(true).unwrap() {
        InstallAction::Reuse { product, id } => {
            assert_eq!(product, "b");
            assert_eq!(id, id_b);
        }
        _ => panic!("expected reuse of b"),
    }
    match inst.finished().unwrap() {
        InstallAction::Build { product, id, env_order } => {
            assert_eq!(product, "a");
            assert_eq!(id, id_a);
            assert_eq!(env_order, strings(&["scipipe_conda", "b", "a"]));
        }
        _ => panic!("expected a build of a"),
    }
    assert!(matches!(inst.finished().unwrap(), InstallAction::Done));
    assert!(inst.is_completed(&"a".to_string()));
    assert!(inst.is_completed(&"b".to_string()));
    assert!(inst.is_completed(&"scipipe_conda".to_string()));
    assert!(matches!(inst.install("a").unwrap(), InstallAction::Done));
    assert!(matches!(inst.install("b").unwrap(), InstallAction::Done));
}

#[test]
fn stored_identity_skips_the_build() {
    let (g, heads) = sample();
    let mut inst = Installer::new(g, heads, vec![]);
    assert!(matches!(inst.install("a").unwrap(), InstallAction::Query { .. }));
    assert!(matches!(inst.answer(true).unwrap(), InstallAction::Reuse { .. }));
    assert_eq!(inst.state(), Some(Phase::AwaitReuse));
    assert!(matches!(inst.finished().unwrap(), InstallAction::Done));
    assert!(!inst.is_completed(&"b".to_string()));
}

#[test]
fn missing_bootstrap_product_is_an_unknown_node() {
    let mut g = DepGraph::new();
    g.add_or_update_product("a".to_string(), NodeKind::Required);
    let mut inst = Installer::new(g, strings(&["h"]), vec![]);
    assert!(matches!(inst.install("a").unwrap(), InstallAction::Query { .. }));
    match inst.answer(false) {
        Err(GraphError::UnknownNode(n)) => assert_eq!(n, "scipipe_conda"),
        _ => panic!("expected an unknown node"),
    }
}

#[test]
fn install_unknown_product() {
    let (g, heads) = sample();
    let mut inst = Installer::new(g, heads, vec![]);
    match inst.install("zz") {
        Err(GraphError::UnknownNode(n)) => assert_eq!(n, "zz"),
        _ => panic!("expected an unknown node"),
    }
    assert_eq!(inst.state(), None);
}

#[test]
fn products_installed_earlier_in_the_run_are_skipped() {
    let (g, heads) = sample();
    let mut inst = Installer::new(g, heads, strings(&["scipipe_conda", "b"]));
    assert!(matches!(inst.install("b").unwrap(), InstallAction::Done));
    assert!(matches!(inst.install("a").unwrap(), InstallAction::Query { .. }));
    match inst.answer(false).unwrap() {
        InstallAction::Build { product, env_order, .. } => {
            assert_eq!(product, "a");
            assert_eq!(env_order, strings(&["scipipe_conda", "b", "a"]));
        }
        _ => panic!("expected a build of a"),
    }
    assert!(matches!(inst.finished().unwrap(), InstallAction::Done));
    assert_eq!(inst.completed(), &strings(&["scipipe_conda", "b", "a"]));
    assert_eq!(inst.graph().len(), 3);
    assert_eq!(inst.heads().len(), 3);
}

#[test]
fn environment_tables_come_from_the_copy_or_the_database() {
    match env_table("a", "a", "id_a", "/w/a/ups/a.table") {
        EnvTable::Local { db_path } => assert_eq!(db_path, "LOCAL:/w/a/ups/a.table"),
        _ => panic!("expected the local table"),
    }
    match env_table("a", "b", "id_b", "/w/a/ups/a.table") {
        EnvTable::Declared { product, id } => {
            assert_eq!(product, "b");
            assert_eq!(id, "id_b");
        }
        _ => panic!("expected a declared table"),
    }
}

#[test]
fn dependencies_are_queried_in_environment_order() {
    let mut g = DepGraph::new();
    for n in ["scipipe_conda", "a", "b", "c"] {
        g.add_or_update_product(n.to_string(), NodeKind::Required);
    }
    g.connect_products("a", "b", "hb".to_string()).unwrap();
    g.connect_products("a", "c", "hc".to_string()).unwrap();
    let mut inst = Installer::new(g, strings(&["s", "ha", "hb", "hc"]), strings(&["scipipe_conda"]));
    assert!(matches!(inst.install("a").unwrap(), InstallAction::Query { .. }));
    let mut asked = vec![];
    let mut action = inst.answer(false).unwrap();
    loop {
        action = match action {
            InstallAction::Query { product, .. } => {
                asked.push(product);
                inst.answer(true).unwrap()
            }
            InstallAction::Reuse { .. } => inst.finished().unwrap(),
            InstallAction::Build { product, env_order, .. } => {
                assert_eq!(product, "a");
                assert_eq!(env_order, strings(&["scipipe_conda", "b", "c", "a"]));
                inst.finished().unwrap()
            }
            InstallAction::Done => break,
        }
    }
    assert_eq!(asked, strings(&["b", "c"]));
    assert_eq!(inst.completed(), &strings(&["scipipe_conda", "b", "c", "a"]));
}
