//! The connection-establishment state machine: from unresolved to punched,
//! one lookup at a time.

use vstd::prelude::*;

use crate::addr::NetAddr;
use crate::lookup::PeerLookupResult;

verus! {

/// Milliseconds between two lookups while the peer is unresolved. The
/// interval is fixed: polling never backs off and never escalates.
pub const POLL_INTERVAL_MS: u64 = 1000;

/// The two states of connection establishment. `Punched` carries the Peer
/// Reference and is terminal: no function leads out of it, so the peer
/// address, once recorded, is frozen for the life of the process.
#[derive(Clone, Copy, Debug, PartialEq, Eq, Structural)]
pub enum EstablishState {
    /// No peer address is known yet.
    Unresolved,
    /// The punch packet went out to this address; the session owns it now.
    Punched(NetAddr),
}

/// What the caller must do with a lookup result while unresolved.
#[derive(Clone, Copy, Debug, PartialEq, Eq, Structural)]
pub enum EstablishAction {
    /// Wait one `POLL_INTERVAL_MS` and look the peer up again.
    Retry,
    /// Send the one-byte punch packet to this address.
    Punch(NetAddr),
    /// The server broke the protocol: terminate with an error.
    Abort,
}

/// Decides the next establishment step from one lookup result. A peer that
/// is not there yet and a request that failed in transit both mean the same
/// fixed-interval retry, however often they have happened before: the
/// action depends on nothing but the one result, so there is no retry
/// counter and no escalation. A protocol violation aborts.
pub fn on_lookup(r: &PeerLookupResult) -> (act: EstablishAction)
    ensures
        r matches PeerLookupResult::Resolved(a) ==> act == EstablishAction::Punch(*a),
        r is NotFound || r is TransportError ==> act == EstablishAction::Retry,
        r is ParseError || r is UnexpectedStatus ==> act == EstablishAction::Abort,
{
    match r {
        PeerLookupResult::Resolved(a) => EstablishAction::Punch(*a),
        PeerLookupResult::NotFound => EstablishAction::Retry,
        PeerLookupResult::TransportError => EstablishAction::Retry,
        PeerLookupResult::ParseError => EstablishAction::Abort,
        PeerLookupResult::UnexpectedStatus(_, _) => EstablishAction::Abort,
    }
}

/// Records the outcome of the punch send: only a send that went through
/// resolves the machine, and a failed send leaves it unresolved so that the
/// next iteration looks the peer up afresh.
pub fn after_punch(addr: NetAddr, sent: bool) -> (s: EstablishState)
    ensures
        sent ==> s == EstablishState::Punched(addr),
        !sent ==> s == EstablishState::Unresolved,
{
    if sent {
        EstablishState::Punched(addr)
    } else {
        EstablishState::Unresolved
    }
}

} // verus!
