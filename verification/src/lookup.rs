//! Classifying what a single peer lookup against the rendezvous server's
//! HTTP endpoint came to.

use vstd::prelude::*;

use crate::addr::addr_text;
use crate::addr::parse_addr;
use crate::addr::NetAddr;

verus! {

/// What one peer lookup came to.
#[derive(Debug, PartialEq, Eq)]
pub enum PeerLookupResult {
    /// The server answered 200 with a well-formed address body: the peer's
    /// publicly visible address.
    Resolved(NetAddr),
    /// The server answered 404: the peer has not registered yet.
    NotFound,
    /// The server answered 200 but the body is no address: it broke the
    /// protocol.
    ParseError,
    /// The server answered outside the protocol; carries the status code and
    /// the body it sent.
    UnexpectedStatus(u16, Vec<u8>),
    /// The request itself failed and nothing was answered.
    TransportError,
}

/// Classifies an HTTP answer to a peer lookup: a 200 body parses to the
/// peer's address or convicts the server of a protocol violation, a 404
/// means the peer is not there yet, and anything else is out of protocol.
/// A request that produced no answer at all is the caller's
/// `TransportError`.
pub fn classify_response(status: u16, body: Vec<u8>) -> (r: PeerLookupResult)
    ensures
        match r {
            PeerLookupResult::Resolved(a) => status == 200 && body@ == addr_text(a),
            PeerLookupResult::ParseError => status == 200 && (forall|a: NetAddr|
                body@ != addr_text(a)),
            PeerLookupResult::NotFound => status == 404,
            PeerLookupResult::UnexpectedStatus(c, b) => c == status && status != 200 && status
                != 404 && b@ == body@,
            PeerLookupResult::TransportError => false,
        },
{
    if status == 200 {
        match parse_addr(body.as_slice()) {
            Some(a) => PeerLookupResult::Resolved(a),
            None => PeerLookupResult::ParseError,
        }
    } else if status == 404 {
        PeerLookupResult::NotFound
    } else {
        PeerLookupResult::UnexpectedStatus(status, body)
    }
}

} // verus!
