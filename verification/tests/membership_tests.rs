use dfs_core::membership::{DistributedFsState, MembershipRegistry, NodeStatus, parse_status};

#[test]
fn join_then_status_then_leave() {
    let mut registry = MembershipRegistry::new();
    registry.join("n1", NodeStatus::Active);
    assert_eq!(registry.status_of("n1"), Some(NodeStatus::Active));
    registry.leave("n1");
    assert_eq!(registry.status_of("n1"), None);
}

#[test]
fn rejoin_overwrites_the_status() {
    let mut registry = MembershipRegistry::new();
    registry.join("n1", NodeStatus::Active);
    registry.join("n1", NodeStatus::Inactive);
    assert_eq!(registry.status_of("n1"), Some(NodeStatus::Inactive));
    let snapshot = registry.snapshot();
    assert_eq!(snapshot.len(), 1);
}

#[test]
fn leave_of_absent_id_is_a_no_op() {
    let mut registry = MembershipRegistry::new();
    assert!(!registry.leave("nobody"));
    registry.join("n1", NodeStatus::Active);
    assert!(!registry.leave("n2"));
    assert_eq!(registry.status_of("n1"), Some(NodeStatus::Active));
}

#[test]
fn snapshot_is_a_point_in_time_copy() {
    let mut registry = MembershipRegistry::new();
    registry.join("n1", NodeStatus::Active);
    registry.join("n2", NodeStatus::Inactive);
    let snapshot = registry.snapshot();
    registry.leave("n1");
    registry.join("n2", NodeStatus::Unknown);
    // the snapshot still shows the state at the time of the call
    assert_eq!(snapshot.len(), 2);
    for entry in &snapshot {
        match entry.id.as_str() {
            "n1" => assert_eq!(entry.status, NodeStatus::Active),
            "n2" => assert_eq!(entry.status, NodeStatus::Inactive),
            other => panic!("unexpected id {other:?}"),
        }
    }
}

#[test]
fn markers_increase_across_joins() {
    let mut registry = MembershipRegistry::new();
    registry.join("a", NodeStatus::Active);
    registry.join("b", NodeStatus::Active);
    let snapshot = registry.snapshot();
    let a = snapshot.iter().find(|e| e.id == "a").unwrap();
    let b = snapshot.iter().find(|e| e.id == "b").unwrap();
    assert!(a.updated < b.updated);
}

#[test]
fn parse_status_accepts_both_letter_cases() {
    assert_eq!(parse_status("Active"), NodeStatus::Active);
    assert_eq!(parse_status("active"), NodeStatus::Active);
    assert_eq!(parse_status("Inactive"), NodeStatus::Inactive);
    assert_eq!(parse_status("inactive"), NodeStatus::Inactive);
    assert_eq!(parse_status("resting"), NodeStatus::Unknown);
    assert_eq!(parse_status(""), NodeStatus::Unknown);
}

#[test]
fn status_labels_are_canonical() {
    assert_eq!(NodeStatus::Active.label(), "Active");
    assert_eq!(NodeStatus::Inactive.label(), "Inactive");
    assert_eq!(NodeStatus::Unknown.label(), "Unknown");
}

#[test]
fn cluster_state_tracks_nodes_by_name() {
    let mut state = DistributedFsState::new();
    state.add_cluster_node("node1", "active");
    state.add_cluster_node("node2", "inactive");
    assert_eq!(state.query_node_status("node1"), Some("Active".to_string()));
    assert_eq!(state.query_node_status("node2"), Some("Inactive".to_string()));
    state.remove_cluster_node("node2");
    assert_eq!(state.query_node_status("node2"), None);
    assert_eq!(state.query_node_status("node3"), None);
}
