use private_node::security::get_security_state;
use private_node::security::normalize_json_string;
use private_node::security::set_security_state;
use private_node::security::SecurityState;
use private_node::text::trim_str;

#[test]
fn trim_removes_both_ends() {
    assert_eq!(trim_str("  hello  "), "hello");
    assert_eq!(trim_str("\t\nx\r "), "x");
    assert_eq!(trim_str("inner  space"), "inner  space");
}

#[test]
fn trim_handles_unicode_white_space() {
    assert_eq!(trim_str("\u{3000}hi\u{00A0}"), "hi");
    assert_eq!(trim_str("\u{2028}\u{205F}"), "");
}

#[test]
fn normalize_trims_and_keeps_content() {
    assert_eq!(normalize_json_string(Some("  {\"a\":1} ".to_string())), Some("{\"a\":1}".to_string()));
}

#[test]
fn normalize_turns_blank_into_absent() {
    assert_eq!(normalize_json_string(Some("   ".to_string())), None);
    assert_eq!(normalize_json_string(Some("".to_string())), None);
}

#[test]
fn normalize_keeps_absent_absent() {
    assert_eq!(normalize_json_string(None), None);
}

#[test]
fn set_normalizes_every_field() {
    let mut state = SecurityState::default();
    set_security_state(
        &mut state,
        Some("  id ".to_string()),
        Some(" ".to_string()),
        None,
        Some("log".to_string()),
        Some("\u{00A0}".to_string()),
    );
    assert_eq!(state.identity_json, Some("id".to_string()));
    assert_eq!(state.delegation_json, None);
    assert_eq!(state.revocation_queue_json, None);
    assert_eq!(state.audit_log_json, Some("log".to_string()));
    assert_eq!(state.failed_flush_queue_json, None);
}

#[test]
fn get_returns_an_equal_snapshot() {
    let mut state = SecurityState::default();
    set_security_state(
        &mut state,
        Some("id".to_string()),
        Some("del".to_string()),
        None,
        None,
        None,
    );
    let snap = get_security_state(&state);
    assert_eq!(snap.identity_json, state.identity_json);
    assert_eq!(snap.delegation_json, state.delegation_json);
    assert_eq!(snap.revocation_queue_json, state.revocation_queue_json);
    assert_eq!(snap.audit_log_json, state.audit_log_json);
    assert_eq!(snap.failed_flush_queue_json, state.failed_flush_queue_json);
}

#[test]
fn default_state_has_every_field_absent() {
    let state = SecurityState::default();
    assert_eq!(state.identity_json, None);
    assert_eq!(state.delegation_json, None);
    assert_eq!(state.revocation_queue_json, None);
    assert_eq!(state.audit_log_json, None);
    assert_eq!(state.failed_flush_queue_json, None);
}
