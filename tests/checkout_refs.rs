use regenerate::checkout::head_ref_for;
use regenerate::source::ref_candidates;
use regenerate::{Checkout, CheckoutAction, Probe};

fn strings(v: &[&str]) -> Vec<String> {
    v.iter().map(|s| s.to_string()).collect()
}

fn tried(a: &CheckoutAction) -> Option<String> {
    match a {
        CheckoutAction::Try(r) => Some(r.clone()),
        _ => None,
    }
}

#[test]
fn head_refs() {
    assert_eq!(head_ref_for("v1.0", true), "refs/tags/v1.0");
    assert_eq!(head_ref_for("w.1", false), "refs/remotes/w.1");
}

#[test]
fn first_candidate_that_checks_out_wins() {
    let (mut c, a) = Checkout::new(strings(&["w.1", "master"]));
    assert_eq!(tried(&a), Some("w.1".to_string()));
    let a = c.record(Probe::Unresolved);
    assert_eq!(tried(&a), Some("master".to_string()));
    match c.record(Probe::CheckedOut { is_tag: false }) {
        CheckoutAction::SetHead { git_ref, head } => {
            assert_eq!(git_ref, "master");
            assert_eq!(head, "refs/remotes/master");
        }
        _ => panic!("expected SetHead"),
    }
}

#[test]
fn tag_checkout_points_head_at_tag() {
    let (mut c, _) = Checkout::new(strings(&["v2"]));
    match c.record(Probe::CheckedOut { is_tag: true }) {
        CheckoutAction::SetHead { head, .. } => assert_eq!(head, "refs/tags/v2"),
        _ => panic!("expected SetHead"),
    }
}

#[test]
fn every_candidate_failing_gives_no_matching_ref() {
    let (mut c, a) = Checkout::new(strings(&["w.1", "master"]));
    assert!(tried(&a).is_some());
    assert!(tried(&c.record(Probe::CheckoutFailed)).is_some());
    assert!(matches!(c.record(Probe::Unresolved), CheckoutAction::NoMatchingRef));
    assert!(matches!(
        c.record(Probe::CheckedOut { is_tag: false }),
        CheckoutAction::NoMatchingRef
    ));
}

#[test]
fn empty_candidate_list() {
    let (_, a) = Checkout::new(vec![]);
    assert!(matches!(a, CheckoutAction::NoMatchingRef));
}

#[test]
fn pinned_product_tries_base_branch_not_master() {
    let branches = strings(&["w.1", "master"]);
    let (mut c, a) = Checkout::new(ref_candidates(&branches, Some("base_branch".to_string())));
    assert_eq!(tried(&a), Some("w.1".to_string()));
    assert_eq!(tried(&c.record(Probe::Unresolved)), Some("base_branch".to_string()));
    let (mut c, a) = Checkout::new(ref_candidates(&branches, None));
    assert_eq!(tried(&a), Some("w.1".to_string()));
    assert_eq!(tried(&c.record(Probe::Unresolved)), Some("master".to_string()));
}
