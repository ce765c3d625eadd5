use chat_relay::registry::Registry;

#[test]
fn n_registrations_grow_the_registry_by_n() {
    let mut reg = Registry::new();
    let n = 17;
    for k in 0..n {
        let id = reg.register();
        assert_eq!(id, k);
    }
    assert_eq!(reg.len(), 17);
}

#[test]
fn claim_hands_out_each_connection_once_in_order() {
    let mut reg = Registry::new();
    let a = reg.register();
    let b = reg.register();
    let c = reg.register();
    assert_eq!(reg.find_and_claim_unassigned(), Some(a));
    assert_eq!(reg.find_and_claim_unassigned(), Some(b));
    assert_eq!(reg.find_and_claim_unassigned(), Some(c));
    assert_eq!(reg.find_and_claim_unassigned(), None);
    assert_eq!(reg.len(), 3);
}

#[test]
fn claim_skips_assigned_and_picks_new_registrations() {
    let mut reg = Registry::new();
    let a = reg.register();
    assert_eq!(reg.find_and_claim_unassigned(), Some(a));
    assert_eq!(reg.find_and_claim_unassigned(), None);
    let b = reg.register();
    assert_eq!(reg.find_and_claim_unassigned(), Some(b));
    assert_eq!(reg.find_and_claim_unassigned(), None);
}

#[test]
fn removal_is_idempotent() {
    let mut reg = Registry::new();
    let a = reg.register();
    let b = reg.register();
    assert!(reg.remove_by_identity(a));
    assert_eq!(reg.len(), 1);
    // the identity is gone: a second removal finds nothing and removes
    // nothing else
    assert!(!reg.remove_by_identity(a));
    assert_eq!(reg.len(), 1);
    assert!(reg.remove_by_identity(b));
    assert_eq!(reg.len(), 0);
    assert!(!reg.remove_by_identity(b));
}

#[test]
fn removal_of_unknown_identity_reports_not_found() {
    let mut reg = Registry::new();
    reg.register();
    assert!(!reg.remove_by_identity(999));
    assert_eq!(reg.len(), 1);
}

#[test]
fn identities_are_never_reused() {
    let mut reg = Registry::new();
    let a = reg.register();
    assert!(reg.remove_by_identity(a));
    let b = reg.register();
    assert_ne!(a, b);
    assert_eq!(reg.len(), 1);
}
