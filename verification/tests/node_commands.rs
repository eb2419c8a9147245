use private_node::node::node_status;
use private_node::node::simulate_peer_join;
use private_node::node::start_private_node;
use private_node::node::start_private_node_mode;
use private_node::node::stop_private_node;
use private_node::node::to_status;
use private_node::node::PrivateNodeState;

#[test]
fn status_is_a_snapshot() {
    let state = PrivateNodeState { online: true, peer_count: 7 };
    let status = node_status(&state);
    assert!(status.online);
    assert_eq!(status.peer_count, 7);
    let again = to_status(&state);
    assert_eq!(again, status);
}

#[test]
fn start_from_fresh_installs_default_peers() {
    let mut state = PrivateNodeState::default();
    let status = start_private_node(&mut state);
    assert!(status.online);
    assert_eq!(status.peer_count, 3);
    assert_eq!(state, PrivateNodeState { online: true, peer_count: 3 });
}

#[test]
fn start_keeps_a_nonzero_count() {
    let mut state = PrivateNodeState { online: false, peer_count: 9 };
    let status = start_private_node(&mut state);
    assert!(status.online);
    assert_eq!(status.peer_count, 9);
}

#[test]
fn start_mode_easy_installs_four_peers() {
    let mut state = PrivateNodeState::default();
    let status = start_private_node_mode(&mut state, "easy".to_string()).unwrap();
    assert!(status.online);
    assert_eq!(status.peer_count, 4);
}

#[test]
fn start_mode_private_installs_two_peers() {
    let mut state = PrivateNodeState { online: true, peer_count: 11 };
    let status = start_private_node_mode(&mut state, "private".to_string()).unwrap();
    assert!(status.online);
    assert_eq!(status.peer_count, 2);
}

#[test]
fn start_mode_unknown_errors_and_leaves_state_alone() {
    let mut state = PrivateNodeState { online: true, peer_count: 5 };
    let err = start_private_node_mode(&mut state, "turbo".to_string()).unwrap_err();
    assert_eq!(err, "invalid node mode");
    assert_eq!(state, PrivateNodeState { online: true, peer_count: 5 });
}

#[test]
fn stop_clears_the_record() {
    let mut state = PrivateNodeState { online: true, peer_count: 42 };
    let status = stop_private_node(&mut state);
    assert!(!status.online);
    assert_eq!(status.peer_count, 0);
}

#[test]
fn stop_twice_gives_the_same_record() {
    let mut state = PrivateNodeState { online: true, peer_count: 42 };
    let first = stop_private_node(&mut state);
    let after_first = state;
    let second = stop_private_node(&mut state);
    assert_eq!(first, second);
    assert_eq!(state, after_first);
    assert_eq!(state, PrivateNodeState { online: false, peer_count: 0 });
}

#[test]
fn peer_join_is_a_no_op_while_offline() {
    let mut state = PrivateNodeState { online: false, peer_count: 6 };
    let status = simulate_peer_join(&mut state);
    assert!(!status.online);
    assert_eq!(status.peer_count, 6);
    assert_eq!(state, PrivateNodeState { online: false, peer_count: 6 });
}

#[test]
fn peer_join_counts_one_more_peer_while_online() {
    let mut state = PrivateNodeState { online: true, peer_count: 6 };
    let status = simulate_peer_join(&mut state);
    assert_eq!(status.peer_count, 7);
}

#[test]
fn peer_join_saturates_at_the_maximum() {
    let mut state = PrivateNodeState { online: true, peer_count: u16::MAX };
    let status = simulate_peer_join(&mut state);
    assert_eq!(status.peer_count, u16::MAX);
    let status = simulate_peer_join(&mut state);
    assert_eq!(status.peer_count, u16::MAX);
    assert!(state.online);
}
