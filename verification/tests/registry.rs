use relay_registry::registry::{
    ClientAssignment, HeartbeatOutcome, RegistryError, ServerEntry, ServerInfo, ServerRegistry,
};

fn s(text: &str) -> String {
    text.to_string()
}

fn with_alpha() -> ServerRegistry {
    let mut registry = ServerRegistry::new();
    let r = registry.register_server(s("alpha"), s("srv1"), s("pubA"), s("10.0.0.5"), 1000);
    assert_eq!(r, Ok(()));
    registry
}

fn entry(identity: &str, name: &str, last_active: u64, reputation: i64) -> ServerEntry {
    ServerEntry {
        identity: s(identity),
        info: ServerInfo {
            server_name: s(name),
            public_key: format!("pub-{}", identity),
            ip_address: format!("ip-{}", identity),
            last_active,
            reputation,
        },
    }
}

#[test]
fn new_registry_is_empty() {
    let registry = ServerRegistry::new();
    assert!(registry.servers().is_empty());
    assert!(registry.client_assignments().is_empty());
    assert!(registry.get_active_servers(0).is_empty());
    let d = ServerRegistry::default();
    assert!(d.servers().is_empty());
    assert!(d.client_assignments().is_empty());
}

#[test]
fn register_then_listed_while_live() {
    let registry = with_alpha();
    assert_eq!(
        registry.get_active_servers(1010),
        vec![(s("srv1"), s("pubA"), s("10.0.0.5"), 0)]
    );
    assert_eq!(registry.get_active_servers(1032), vec![]);
    assert_eq!(registry.servers().len(), 1);
    assert_eq!(registry.servers()[0].identity, "alpha");
    assert_eq!(registry.servers()[0].info.last_active, 1000);
    assert_eq!(registry.servers()[0].info.reputation, 0);
}

#[test]
fn register_twice_is_refused_and_keeps_first_record() {
    let mut registry = with_alpha();
    let before = registry.servers().clone();
    let again = registry.register_server(s("alpha"), s("other"), s("pubZ"), s("10.9.9.9"), 2000);
    assert_eq!(again, Err(RegistryError::AlreadyRegistered));
    assert_eq!(registry.servers(), &before);
    assert_eq!(registry.servers()[0].info.server_name, "srv1");
    assert_eq!(registry.servers()[0].info.last_active, 1000);
}

#[test]
fn two_identities_may_share_a_name() {
    let mut registry = with_alpha();
    let r = registry.register_server(s("beta"), s("srv1"), s("pubB"), s("10.0.0.6"), 1001);
    assert_eq!(r, Ok(()));
    assert_eq!(registry.servers().len(), 2);
    assert_eq!(registry.get_active_servers(1001).len(), 2);
}

#[test]
fn select_returns_credentials_and_queues_client() {
    let mut registry = with_alpha();
    let r = registry.select_server(s("srv1"), s("pubClientX"));
    assert_eq!(r, Ok((s("pubA"), s("10.0.0.5"))));
    assert_eq!(
        registry.client_assignments(),
        &vec![ClientAssignment { server_name: s("srv1"), client_public_key: s("pubClientX") }]
    );
    assert_eq!(registry.servers()[0].info.last_active, 1000);
}

#[test]
fn select_prefers_first_registered_of_a_shared_name() {
    let mut registry = with_alpha();
    registry.register_server(s("beta"), s("srv1"), s("pubB"), s("10.0.0.6"), 5000).unwrap();
    registry.register_server(s("gamma"), s("srv2"), s("pubC"), s("10.0.0.7"), 5000).unwrap();
    assert_eq!(registry.select_server(s("srv1"), s("k1")), Ok((s("pubA"), s("10.0.0.5"))));
    assert_eq!(registry.select_server(s("srv2"), s("k2")), Ok((s("pubC"), s("10.0.0.7"))));
    assert_eq!(registry.client_assignments().len(), 2);
}

#[test]
fn later_selection_overwrites_unconsumed_one() {
    let mut registry = with_alpha();
    registry.select_server(s("srv1"), s("first")).unwrap();
    registry.select_server(s("srv1"), s("second")).unwrap();
    assert_eq!(
        registry.client_assignments(),
        &vec![ClientAssignment { server_name: s("srv1"), client_public_key: s("second") }]
    );
    assert_eq!(
        registry.heartbeat(&s("alpha"), 1001),
        HeartbeatOutcome::AssignmentDelivered(s("second"))
    );
    assert_eq!(registry.heartbeat(&s("alpha"), 1002), HeartbeatOutcome::LivenessRecorded);
}

#[test]
fn heartbeat_delivers_assignment_and_freezes_liveness() {
    let mut registry = with_alpha();
    registry.select_server(s("srv1"), s("pubClientX")).unwrap();
    let outcome = registry.heartbeat(&s("alpha"), 1020);
    assert_eq!(outcome, HeartbeatOutcome::AssignmentDelivered(s("pubClientX")));
    assert!(registry.client_assignments().is_empty());
    assert_eq!(registry.servers()[0].info.last_active, 1000);
}

#[test]
fn assignment_is_delivered_exactly_once() {
    let mut registry = with_alpha();
    registry.select_server(s("srv1"), s("pubClientX")).unwrap();
    assert_eq!(
        registry.heartbeat(&s("alpha"), 1005),
        HeartbeatOutcome::AssignmentDelivered(s("pubClientX"))
    );
    assert_eq!(registry.heartbeat(&s("alpha"), 1010), HeartbeatOutcome::LivenessRecorded);
    assert_eq!(registry.heartbeat(&s("alpha"), 1015), HeartbeatOutcome::LivenessRecorded);
    assert_eq!(registry.servers()[0].info.last_active, 1015);
}

#[test]
fn heartbeat_without_assignment_refreshes_liveness() {
    let mut registry = with_alpha();
    assert_eq!(registry.heartbeat(&s("alpha"), 1040), HeartbeatOutcome::LivenessRecorded);
    assert_eq!(registry.servers()[0].info.last_active, 1040);
    assert_eq!(registry.get_active_servers(1070).len(), 1);
    assert_eq!(registry.get_active_servers(1071).len(), 0);
}

#[test]
fn heartbeat_touches_only_the_caller() {
    let mut registry = with_alpha();
    registry.register_server(s("beta"), s("srv2"), s("pubB"), s("10.0.0.6"), 1000).unwrap();
    registry.select_server(s("srv2"), s("forBeta")).unwrap();
    assert_eq!(registry.heartbeat(&s("alpha"), 1100), HeartbeatOutcome::LivenessRecorded);
    assert_eq!(registry.client_assignments().len(), 1);
    assert_eq!(registry.servers()[0].info.last_active, 1100);
    assert_eq!(registry.servers()[1].info.last_active, 1000);
    assert_eq!(
        registry.heartbeat(&s("beta"), 1101),
        HeartbeatOutcome::AssignmentDelivered(s("forBeta"))
    );
}

#[test]
fn reputation_updates_add_up() {
    let mut registry = with_alpha();
    assert_eq!(registry.update_reputation(&s("alpha"), 5), Ok(5));
    assert_eq!(registry.update_reputation(&s("alpha"), -2), Ok(3));
    assert_eq!(registry.reputation(&s("alpha")), Some(3));
    assert_eq!(registry.servers()[0].info.reputation, 3);
    assert_eq!(
        registry.get_active_servers(1000),
        vec![(s("srv1"), s("pubA"), s("10.0.0.5"), 3)]
    );
}

#[test]
fn reputation_sum_may_run_negative() {
    let mut registry = with_alpha();
    let deltas: [i64; 6] = [-7, 3, -10, 20, 0, -6];
    let mut sum: i64 = 0;
    for d in deltas {
        sum += d;
        assert_eq!(registry.update_reputation(&s("alpha"), d), Ok(sum));
    }
    assert_eq!(sum, 0);
    assert_eq!(registry.reputation(&s("alpha")), Some(0));
    assert_eq!(registry.update_reputation(&s("alpha"), -1), Ok(-1));
}

#[test]
fn reputation_update_leaves_other_records_alone() {
    let mut registry = with_alpha();
    registry.register_server(s("beta"), s("srv2"), s("pubB"), s("10.0.0.6"), 1000).unwrap();
    assert_eq!(registry.update_reputation(&s("beta"), 9), Ok(9));
    assert_eq!(registry.reputation(&s("alpha")), Some(0));
    assert_eq!(registry.reputation(&s("beta")), Some(9));
}

#[test]
fn liveness_window_is_inclusive_at_thirty_seconds() {
    let registry = with_alpha();
    assert_eq!(registry.get_active_servers(1030).len(), 1);
    assert_eq!(registry.get_active_servers(1031).len(), 0);
    assert_eq!(registry.get_active_servers(1000).len(), 1);
}

#[test]
fn clock_behind_last_activity_still_counts_as_live() {
    let registry = with_alpha();
    assert_eq!(registry.get_active_servers(999).len(), 1);
    assert_eq!(registry.get_active_servers(0).len(), 1);
}

#[test]
fn directory_keeps_registration_order_and_drops_stale() {
    let mut registry = ServerRegistry::new();
    registry.register_server(s("a"), s("n1"), s("k1"), s("i1"), 100).unwrap();
    registry.register_server(s("b"), s("n2"), s("k2"), s("i2"), 50).unwrap();
    registry.register_server(s("c"), s("n3"), s("k3"), s("i3"), 120).unwrap();
    assert_eq!(
        registry.get_active_servers(130),
        vec![(s("n1"), s("k1"), s("i1"), 0), (s("n3"), s("k3"), s("i3"), 0)]
    );
    assert_eq!(registry.get_active_servers(80).len(), 3);
    assert_eq!(registry.get_active_servers(151), vec![]);
    assert_eq!(registry.servers().len(), 3);
}

#[test]
fn select_unknown_name_is_not_found_and_changes_nothing() {
    let mut registry = with_alpha();
    registry.select_server(s("srv1"), s("pubClientX")).unwrap();
    let servers = registry.servers().clone();
    let pending = registry.client_assignments().clone();
    assert_eq!(registry.select_server(s("ghost"), s("pubY")), Err(RegistryError::NotFound));
    assert_eq!(registry.servers(), &servers);
    assert_eq!(registry.client_assignments(), &pending);
}

#[test]
fn unknown_identity_is_not_found_and_changes_nothing() {
    let mut registry = with_alpha();
    registry.select_server(s("srv1"), s("pubClientX")).unwrap();
    let servers = registry.servers().clone();
    let pending = registry.client_assignments().clone();
    assert_eq!(registry.update_reputation(&s("nobody"), 4), Err(RegistryError::NotFound));
    assert_eq!(registry.heartbeat(&s("nobody"), 2000), HeartbeatOutcome::NotFound);
    assert_eq!(registry.reputation(&s("nobody")), None);
    assert_eq!(registry.servers(), &servers);
    assert_eq!(registry.client_assignments(), &pending);
}

#[test]
fn identity_is_not_confused_with_name() {
    let mut registry = with_alpha();
    assert_eq!(registry.select_server(s("alpha"), s("k")), Err(RegistryError::NotFound));
    assert_eq!(registry.heartbeat(&s("srv1"), 1001), HeartbeatOutcome::NotFound);
    assert_eq!(registry.update_reputation(&s("srv1"), 1), Err(RegistryError::NotFound));
}

#[test]
fn restore_accepts_a_valid_snapshot() {
    let servers = vec![entry("a", "n", 10, 4), entry("b", "n", 20, -3)];
    let pending = vec![ClientAssignment { server_name: s("n"), client_public_key: s("k") }];
    let mut registry = ServerRegistry::restore(servers.clone(), pending.clone()).unwrap();
    assert_eq!(registry.servers(), &servers);
    assert_eq!(registry.client_assignments(), &pending);
    assert_eq!(registry.reputation(&s("b")), Some(-3));
    assert_eq!(registry.heartbeat(&s("b"), 25), HeartbeatOutcome::AssignmentDelivered(s("k")));
    assert_eq!(registry.heartbeat(&s("a"), 26), HeartbeatOutcome::LivenessRecorded);
}

#[test]
fn restore_round_trips_a_registry() {
    let mut registry = with_alpha();
    registry.select_server(s("srv1"), s("pubClientX")).unwrap();
    registry.update_reputation(&s("alpha"), 7).unwrap();
    let copy = ServerRegistry::restore(
        registry.servers().clone(),
        registry.client_assignments().clone(),
    )
    .unwrap();
    assert_eq!(copy.servers(), registry.servers());
    assert_eq!(copy.client_assignments(), registry.client_assignments());
}

#[test]
fn restore_refuses_a_repeated_identity() {
    let servers = vec![entry("a", "n1", 10, 0), entry("b", "n2", 10, 0), entry("a", "n3", 10, 0)];
    let r = ServerRegistry::restore(servers, vec![]);
    assert_eq!(r.err(), Some(RegistryError::StoreUnavailable));
}

#[test]
fn restore_refuses_a_repeated_pending_name() {
    let pending = vec![
        ClientAssignment { server_name: s("n"), client_public_key: s("k1") },
        ClientAssignment { server_name: s("m"), client_public_key: s("k2") },
        ClientAssignment { server_name: s("n"), client_public_key: s("k3") },
    ];
    let r = ServerRegistry::restore(vec![entry("a", "n", 10, 0)], pending);
    assert_eq!(r.err(), Some(RegistryError::StoreUnavailable));
}

#[test]
fn restore_of_nothing_is_the_empty_registry() {
    let registry = ServerRegistry::restore(vec![], vec![]).unwrap();
    assert!(registry.servers().is_empty());
    assert!(registry.client_assignments().is_empty());
}
