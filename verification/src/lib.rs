//! A UDP hole-punching client library: the rendezvous protocol, the
//! connection-establishment state machine and the session rules, verified.
//!
//! The crate holds the pure logic: building the registration datagram,
//! parsing the peer address a rendezvous server answers with, classifying
//! lookup responses, deciding the next establishment step, and filtering
//! session traffic by its source address. The sockets and the HTTP client
//! live outside, hand these functions plain values and act on what they
//! return.

pub mod addr;
pub mod establish;
pub mod lookup;
pub mod packet;
pub mod session;
pub mod text;
