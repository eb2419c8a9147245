use private_node::codec::decode_private_node_state;
use private_node::codec::encode_private_node_state;
use private_node::node::PrivateNodeState;
use private_node::security::set_security_state;
use private_node::security::SecurityState;
use private_node::security_codec::decode_security_state;
use private_node::security_codec::encode_security_state;

fn sec_state(
    identity: Option<&str>,
    delegation: Option<&str>,
    revocation: Option<&str>,
    audit: Option<&str>,
    failed: Option<&str>,
) -> SecurityState {
    let mut state = SecurityState::default();
    set_security_state(
        &mut state,
        identity.map(|s| s.to_string()),
        delegation.map(|s| s.to_string()),
        revocation.map(|s| s.to_string()),
        audit.map(|s| s.to_string()),
        failed.map(|s| s.to_string()),
    );
    state
}

fn assert_sec_eq(a: &SecurityState, b: &SecurityState) {
    assert_eq!(a.identity_json, b.identity_json);
    assert_eq!(a.delegation_json, b.delegation_json);
    assert_eq!(a.revocation_queue_json, b.revocation_queue_json);
    assert_eq!(a.audit_log_json, b.audit_log_json);
    assert_eq!(a.failed_flush_queue_json, b.failed_flush_queue_json);
}

#[test]
fn node_encoding_is_the_expected_object() {
    let bytes = encode_private_node_state(&PrivateNodeState { online: false, peer_count: 0 });
    assert_eq!(bytes, b"{\"online\":false,\"peer_count\":0}".to_vec());
    let bytes = encode_private_node_state(&PrivateNodeState { online: true, peer_count: 65535 });
    assert_eq!(bytes, b"{\"online\":true,\"peer_count\":65535}".to_vec());
}

#[test]
fn node_state_survives_a_round_trip() {
    for state in [
        PrivateNodeState { online: false, peer_count: 0 },
        PrivateNodeState { online: true, peer_count: 1 },
        PrivateNodeState { online: true, peer_count: 3 },
        PrivateNodeState { online: false, peer_count: 10 },
        PrivateNodeState { online: true, peer_count: 65535 },
    ] {
        let bytes = encode_private_node_state(&state);
        assert_eq!(decode_private_node_state(&bytes), state);
    }
}

#[test]
fn malformed_node_bytes_fall_back_to_the_default() {
    let default = PrivateNodeState { online: false, peer_count: 0 };
    assert_eq!(decode_private_node_state(&Vec::new()), default);
    assert_eq!(decode_private_node_state(&b"not json".to_vec()), default);
    assert_eq!(decode_private_node_state(&b"{\"online\":maybe,\"peer_count\":3}".to_vec()), default);
    assert_eq!(decode_private_node_state(&b"{\"online\":true,\"peer_count\":3".to_vec()), default);
    assert_eq!(decode_private_node_state(&b"{\"online\":true,\"peer_count\":3}x".to_vec()), default);
}

#[test]
fn non_canonical_node_numbers_fall_back_to_the_default() {
    let default = PrivateNodeState { online: false, peer_count: 0 };
    assert_eq!(decode_private_node_state(&b"{\"online\":true,\"peer_count\":007}".to_vec()), default);
    assert_eq!(decode_private_node_state(&b"{\"online\":true,\"peer_count\":65536}".to_vec()), default);
    assert_eq!(decode_private_node_state(&b"{\"online\":true,\"peer_count\":}".to_vec()), default);
    assert_eq!(decode_private_node_state(&b"{\"online\":true,\"peer_count\":123456}".to_vec()), default);
}

#[test]
fn security_encoding_of_the_empty_record_is_all_null() {
    let bytes = encode_security_state(&SecurityState::default());
    let expected = b"{\"identityJson\":null,\"delegationJson\":null,\"revocationQueueJson\":null,\"auditLogJson\":null,\"failedFlushQueueJson\":null}";
    assert_eq!(bytes, expected.to_vec());
}

#[test]
fn security_state_survives_a_round_trip() {
    let state = sec_state(
        Some("{\"key\":\"ab\\\\c\"}"),
        Some("line one\nline two"),
        None,
        Some("quotes \" inside"),
        Some("unicode \u{00E9}\u{3042}"),
    );
    let bytes = encode_security_state(&state);
    let decoded = decode_security_state(&bytes);
    assert_sec_eq(&decoded, &state);
}

#[test]
fn empty_security_record_survives_a_round_trip() {
    let state = SecurityState::default();
    let bytes = encode_security_state(&state);
    let decoded = decode_security_state(&bytes);
    assert_sec_eq(&decoded, &state);
}

#[test]
fn malformed_security_bytes_fall_back_to_the_empty_record() {
    let empty = SecurityState::default();
    assert_sec_eq(&decode_security_state(&Vec::new()), &empty);
    assert_sec_eq(&decode_security_state(&b"{}".to_vec()), &empty);
    assert_sec_eq(&decode_security_state(&b"{\"identityJson\":null}".to_vec()), &empty);
    let mut truncated = encode_security_state(&sec_state(Some("x"), None, None, None, None));
    truncated.pop();
    assert_sec_eq(&decode_security_state(&truncated), &empty);
}

#[test]
fn invalid_utf8_inside_a_stored_string_falls_back_to_the_empty_record() {
    let state = sec_state(Some("abc"), None, None, None, None);
    let mut bytes = encode_security_state(&state);
    let pos = bytes.windows(3).position(|w| w == b"abc").unwrap();
    bytes[pos] = 0xFF;
    let decoded = decode_security_state(&bytes);
    assert_sec_eq(&decoded, &SecurityState::default());
}
