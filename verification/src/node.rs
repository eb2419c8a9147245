//! The private-node record and the four commands that drive it.
//!
//! The node is a simulation: `online` is a flag and `peer_count` a counter
//! set by commands, not a measurement of any live connection. Each command
//! pins the whole new record in its contract, so the idempotence and
//! saturation facts below are proved once and hold of every caller.

use vstd::prelude::*;

verus! {

/// Peer count installed by a plain start when the counter is still zero.
pub const DEFAULT_PEER_COUNT: u16 = 3;

/// Peer count installed by a start in "easy" mode.
pub const EASY_PEER_COUNT: u16 = 4;

/// Peer count installed by a start in "private" mode.
pub const PRIVATE_PEER_COUNT: u16 = 2;

/// The in-memory private-node record: mirrored to disk by the caller after
/// every mutation.
#[derive(Clone, Copy, Debug, PartialEq, Eq, Structural)]
pub struct PrivateNodeState {
    pub online: bool,
    pub peer_count: u16,
}

/// The snapshot handed back to the shell after a query or a command.
#[derive(Clone, Copy, Debug, PartialEq, Eq, Structural)]
pub struct PrivateNodeStatus {
    pub online: bool,
    pub peer_count: u16,
}

impl Default for PrivateNodeState {
    /// A fresh node: offline with no peers.
    fn default() -> (r: Self)
        ensures
            r == (PrivateNodeState { online: false, peer_count: 0u16 }),
    {
        PrivateNodeState { online: false, peer_count: 0 }
    }
}

/// The snapshot that mirrors a given record.
pub open spec fn spec_status(s: PrivateNodeState) -> PrivateNodeStatus {
    PrivateNodeStatus { online: s.online, peer_count: s.peer_count }
}

/// The record after a plain start: online, and a zero counter is bumped to
/// the default peer count.
pub open spec fn spec_start(s: PrivateNodeState) -> PrivateNodeState {
    PrivateNodeState {
        online: true,
        peer_count: if s.peer_count == 0 {
            DEFAULT_PEER_COUNT
        } else {
            s.peer_count
        },
    }
}

/// The record after a stop: offline with no peers, whatever came before.
pub open spec fn spec_stop(s: PrivateNodeState) -> PrivateNodeState {
    PrivateNodeState { online: false, peer_count: 0u16 }
}

/// The record after a simulated peer join: one more peer, saturating at the
/// counter's maximum, and only while the node is online.
pub open spec fn spec_peer_join(s: PrivateNodeState) -> PrivateNodeState {
    if s.online {
        PrivateNodeState {
            online: true,
            peer_count: if s.peer_count == u16::MAX {
                u16::MAX
            } else {
                (s.peer_count + 1) as u16
            },
        }
    } else {
        s
    }
}

/// The peer count a mode string selects, or `None` for an unrecognized mode.
pub open spec fn mode_peer_count(mode: Seq<char>) -> Option<u16> {
    if mode == "easy"@ {
        Some(EASY_PEER_COUNT)
    } else if mode == "private"@ {
        Some(PRIVATE_PEER_COUNT)
    } else {
        None
    }
}

/// Snapshot of a record.
pub fn to_status(state: &PrivateNodeState) -> (r: PrivateNodeStatus)
    ensures
        r == spec_status(*state),
{
    PrivateNodeStatus { online: state.online, peer_count: state.peer_count }
}

/// The status query: a snapshot with no side effect.
pub fn node_status(state: &PrivateNodeState) -> (r: PrivateNodeStatus)
    ensures
        r == spec_status(*state),
{
    to_status(state)
}

/// Start the node. The caller persists the new record afterwards.
pub fn start_private_node(state: &mut PrivateNodeState) -> (r: PrivateNodeStatus)
    ensures
        *final(state) == spec_start(*old(state)),
        r == spec_status(*final(state)),
{
    state.online = true;
    if state.peer_count == 0 {
        state.peer_count = DEFAULT_PEER_COUNT;
    }
    to_status(state)
}

/// Start the node in a named mode. A recognized mode installs its fixed
/// peer count; an unrecognized mode is reported as an error and leaves the
/// record untouched.
pub fn start_private_node_mode(state: &mut PrivateNodeState, mode: String) -> (r: Result<
    PrivateNodeStatus,
    String,
>)
    ensures
        match mode_peer_count(mode@) {
            Some(pc) => {
                &&& *final(state) == (PrivateNodeState { online: true, peer_count: pc })
                &&& r matches Ok(st) && st == spec_status(*final(state))
            },
            None => {
                &&& *final(state) == *old(state)
                &&& r matches Err(e) && e@ == "invalid node mode"@
            },
        },
{
    let peer_count: u16 = if mode == String::from_str("easy") {
        EASY_PEER_COUNT
    } else if mode == String::from_str("private") {
        PRIVATE_PEER_COUNT
    } else {
        return Err(String::from_str("invalid node mode"));
    };
    state.online = true;
    state.peer_count = peer_count;
    Ok(to_status(state))
}

/// Stop the node. The caller persists the new record afterwards.
pub fn stop_private_node(state: &mut PrivateNodeState) -> (r: PrivateNodeStatus)
    ensures
        *final(state) == spec_stop(*old(state)),
        r == spec_status(*final(state)),
{
    state.online = false;
    state.peer_count = 0;
    to_status(state)
}

/// Simulate one peer joining. Only an online node counts the join, and the
/// counter saturates instead of wrapping. The caller persists the record
/// only when it changed, that is, only when the node was online.
pub fn simulate_peer_join(state: &mut PrivateNodeState) -> (r: PrivateNodeStatus)
    ensures
        *final(state) == spec_peer_join(*old(state)),
        r == spec_status(*final(state)),
{
    if state.online {
        if state.peer_count < u16::MAX {
            state.peer_count = state.peer_count + 1;
        }
    }
    to_status(state)
}

/// Stopping is idempotent: a second stop finds the record a stop leaves
/// behind and leaves it exactly as it is, offline with no peers.
pub proof fn lemma_stop_idempotent(s: PrivateNodeState)
    ensures
        spec_stop(spec_stop(s)) == spec_stop(s),
        spec_stop(s) == (PrivateNodeState { online: false, peer_count: 0u16 }),
{
}

/// Peer joins saturate: the counter never overflows, a join never shrinks
/// it, and once it stands at the maximum any further join leaves the whole
/// record unchanged.
pub proof fn lemma_peer_join_saturates(s: PrivateNodeState)
    ensures
        spec_peer_join(s).peer_count <= u16::MAX,
        spec_peer_join(s).peer_count >= s.peer_count,
        s.peer_count == u16::MAX ==> spec_peer_join(s) == s,
{
}

} // verus!
