//! The session rules: once a peer is punched, which datagrams go out, which
//! inbound traffic is surfaced, and what ends the session.

use vstd::prelude::*;
use vstd::utf8::decode_utf8;
use vstd::utf8::valid_utf8;

use crate::addr::NetAddr;
use crate::text::spec_trim_end;
use crate::text::trim_ascii_end;
use crate::text::utf8_to_string;

verus! {

/// One thing the session loop observed.
pub enum SessionEvent {
    /// A full line of local input, trailing newline included.
    LineRead(Vec<u8>),
    /// Local input reached its end.
    LineEof,
    /// Reading local input failed.
    LineReadError,
    /// A datagram arrived: its bytes and the address it came from.
    Datagram(Vec<u8>, NetAddr),
    /// Receiving on the socket failed.
    RecvError,
}

/// What the session loop must do with one event.
#[derive(Debug, PartialEq, Eq)]
pub enum SessionOutcome {
    /// Send exactly these bytes to the peer as one datagram.
    SendToPeer(Vec<u8>),
    /// Surface this text as a message from the peer.
    Deliver(String),
    /// The datagram came from some other address: drop it with a warning
    /// and change nothing.
    DiscardForeign,
    /// A transient failure: log it and keep the session going.
    Continue,
    /// Local input is done: exit successfully, sending nothing further.
    TerminateSuccess,
    /// A protocol violation or a local read failure: exit with an error.
    TerminateFailure,
}

/// Decides what one session event leads to. The peer address only ever
/// enters as the yardstick a datagram's source is measured against; nothing
/// here, or anywhere, can change it. A line of input becomes exactly one
/// datagram to the peer carrying the line's bytes unaltered; a datagram
/// from the peer is trimmed of trailing ASCII whitespace and must decode as
/// UTF-8; a datagram from anyone else is discarded unread.
pub fn session_step(peer: &NetAddr, event: SessionEvent) -> (out: SessionOutcome)
    ensures
        match event {
            SessionEvent::LineRead(line) => out matches SessionOutcome::SendToPeer(p) && p@
                == line@,
            SessionEvent::LineEof => out == SessionOutcome::TerminateSuccess,
            SessionEvent::LineReadError => out == SessionOutcome::TerminateFailure,
            SessionEvent::Datagram(bytes, src) => if src != *peer {
                out == SessionOutcome::DiscardForeign
            } else if valid_utf8(spec_trim_end(bytes@)) {
                out matches SessionOutcome::Deliver(m) && m@ == decode_utf8(spec_trim_end(bytes@))
            } else {
                out == SessionOutcome::TerminateFailure
            },
            SessionEvent::RecvError => out == SessionOutcome::Continue,
        },
{
    match event {
        SessionEvent::LineRead(line) => SessionOutcome::SendToPeer(line),
        SessionEvent::LineEof => SessionOutcome::TerminateSuccess,
        SessionEvent::LineReadError => SessionOutcome::TerminateFailure,
        SessionEvent::Datagram(bytes, src) => {
            if src != *peer {
                SessionOutcome::DiscardForeign
            } else {
                let trimmed = trim_ascii_end(bytes.as_slice());
                match utf8_to_string(trimmed) {
                    Some(m) => SessionOutcome::Deliver(m),
                    None => SessionOutcome::TerminateFailure,
                }
            }
        },
        SessionEvent::RecvError => SessionOutcome::Continue,
    }
}

} // verus!
