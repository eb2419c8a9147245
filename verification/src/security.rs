//! The security-state bundle: five optional, caller-supplied strings that
//! the shell stores verbatim after a light normalization. The library does
//! not parse or validate their contents.

use vstd::prelude::*;

use crate::text::trim_spec;
use crate::text::trim_str;

verus! {

/// The in-memory security-state record. Each field is an opaque string
/// handed in by the caller, trimmed, with an empty result stored as absent.
pub struct SecurityState {
    pub identity_json: Option<String>,
    pub delegation_json: Option<String>,
    pub revocation_queue_json: Option<String>,
    pub audit_log_json: Option<String>,
    pub failed_flush_queue_json: Option<String>,
}

/// The mathematical image of a [`SecurityState`]: each field as an optional
/// character sequence.
#[verifier::ext_equal]
pub struct SecView {
    pub identity_json: Option<Seq<char>>,
    pub delegation_json: Option<Seq<char>>,
    pub revocation_queue_json: Option<Seq<char>>,
    pub audit_log_json: Option<Seq<char>>,
    pub failed_flush_queue_json: Option<Seq<char>>,
}

/// The contents of an optional string.
pub open spec fn opt_str_view(v: Option<String>) -> Option<Seq<char>> {
    match v {
        Some(s) => Some(s@),
        None => None,
    }
}

impl View for SecurityState {
    type V = SecView;

    open spec fn view(&self) -> SecView {
        SecView {
            identity_json: opt_str_view(self.identity_json),
            delegation_json: opt_str_view(self.delegation_json),
            revocation_queue_json: opt_str_view(self.revocation_queue_json),
            audit_log_json: opt_str_view(self.audit_log_json),
            failed_flush_queue_json: opt_str_view(self.failed_flush_queue_json),
        }
    }
}

impl SecView {
    /// The record with every field absent.
    pub open spec fn empty() -> SecView {
        SecView {
            identity_json: None,
            delegation_json: None,
            revocation_queue_json: None,
            audit_log_json: None,
            failed_flush_queue_json: None,
        }
    }
}

impl Default for SecurityState {
    /// A fresh record with every field absent.
    fn default() -> (r: Self)
        ensures
            r@ == SecView::empty(),
    {
        SecurityState {
            identity_json: None,
            delegation_json: None,
            revocation_queue_json: None,
            audit_log_json: None,
            failed_flush_queue_json: None,
        }
    }
}

/// What normalization makes of an optional string: trimmed, and an empty
/// remainder becomes absent.
pub open spec fn normalize_spec(v: Option<Seq<char>>) -> Option<Seq<char>> {
    match v {
        Some(s) => if trim_spec(s).len() == 0 {
            None
        } else {
            Some(trim_spec(s))
        },
        None => None,
    }
}

/// Trim an optional string and turn an empty remainder into absence.
pub fn normalize_json_string(value: Option<String>) -> (r: Option<String>)
    ensures
        opt_str_view(r) == normalize_spec(opt_str_view(value)),
{
    match value {
        Some(raw) => {
            let trimmed = trim_str(raw.as_str());
            if trimmed.as_str().is_empty() {
                None
            } else {
                Some(trimmed)
            }
        },
        None => None,
    }
}

/// A copy of an optional string with the same contents.
fn clone_opt_string(v: &Option<String>) -> (r: Option<String>)
    ensures
        opt_str_view(r) == opt_str_view(*v),
{
    match v {
        Some(s) => Some(s.clone()),
        None => None,
    }
}

/// Overwrite all five fields from the caller's values, each normalized
/// independently. The caller persists the new record afterwards.
pub fn set_security_state(
    state: &mut SecurityState,
    identity_json: Option<String>,
    delegation_json: Option<String>,
    revocation_queue_json: Option<String>,
    audit_log_json: Option<String>,
    failed_flush_queue_json: Option<String>,
)
    ensures
        final(state)@ == (SecView {
            identity_json: normalize_spec(opt_str_view(identity_json)),
            delegation_json: normalize_spec(opt_str_view(delegation_json)),
            revocation_queue_json: normalize_spec(opt_str_view(revocation_queue_json)),
            audit_log_json: normalize_spec(opt_str_view(audit_log_json)),
            failed_flush_queue_json: normalize_spec(opt_str_view(failed_flush_queue_json)),
        }),
{
    state.identity_json = normalize_json_string(identity_json);
    state.delegation_json = normalize_json_string(delegation_json);
    state.revocation_queue_json = normalize_json_string(revocation_queue_json);
    state.audit_log_json = normalize_json_string(audit_log_json);
    state.failed_flush_queue_json = normalize_json_string(failed_flush_queue_json);
}

/// A snapshot of the record with the same contents.
pub fn get_security_state(state: &SecurityState) -> (r: SecurityState)
    ensures
        r@ == state@,
{
    SecurityState {
        identity_json: clone_opt_string(&state.identity_json),
        delegation_json: clone_opt_string(&state.delegation_json),
        revocation_queue_json: clone_opt_string(&state.revocation_queue_json),
        audit_log_json: clone_opt_string(&state.audit_log_json),
        failed_flush_queue_json: clone_opt_string(&state.failed_flush_queue_json),
    }
}

} // verus!
