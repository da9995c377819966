//! The datagrams this client emits: the registration packet sent to the
//! rendezvous server and the one-byte hole-punch packet sent to the peer.

use vstd::prelude::*;
use vstd::utf8::decode_utf8;
use vstd::utf8::encode_utf8;
use vstd::utf8::encode_utf8_decode_utf8;
use vstd::utf8::encode_utf8_valid_utf8;
use vstd::utf8::valid_utf8;

use crate::text::utf8_to_string;

verus! {

/// The registration datagram for an identity: a zero marker byte, the
/// identity's UTF-8 bytes, and a 0xFF end marker.
pub open spec fn spec_registration_packet(name: Seq<char>) -> Seq<u8> {
    seq![0x00u8] + encode_utf8(name) + seq![0xFFu8]
}

/// True of byte sequences shaped like a registration datagram: at least the
/// two marker bytes, starting with 0x00 and ending with 0xFF.
pub open spec fn spec_packet_well_formed(p: Seq<u8>) -> bool {
    p.len() >= 2 && p[0] == 0x00 && p.last() == 0xFF
}

/// The identity bytes carried between the two marker bytes.
pub open spec fn spec_packet_body(p: Seq<u8>) -> Seq<u8> {
    p.subrange(1, p.len() - 1)
}

/// Builds the registration datagram announcing `name` to the rendezvous
/// server.
pub fn registration_packet(name: &str) -> (p: Vec<u8>)
    ensures
        p@ == spec_registration_packet(name@),
{
    let bytes = name.as_bytes();
    let mut p: Vec<u8> = Vec::new();
    p.push(0x00u8);
    p.extend_from_slice(bytes);
    p.push(0xFFu8);
    proof {
        assert(p@ =~= spec_registration_packet(name@));
    }
    p
}

/// Reads the identity a registration datagram announces, or `None` when the
/// bytes are not shaped like one or the identity bytes are not UTF-8.
pub fn registration_identity(p: &[u8]) -> (r: Option<String>)
    ensures
        match r {
            Some(s) => spec_packet_well_formed(p@) && valid_utf8(spec_packet_body(p@)) && s@
                == decode_utf8(spec_packet_body(p@)),
            None => !spec_packet_well_formed(p@) || !valid_utf8(spec_packet_body(p@)),
        },
{
    if p.len() < 2 || p[0] != 0x00 || p[p.len() - 1] != 0xFF {
        None
    } else {
        let body = vstd::slice::slice_subrange(p, 1, p.len() - 1);
        utf8_to_string(body)
    }
}

/// The one-byte hole-punch datagram sent to a freshly resolved peer.
pub fn punch_packet() -> (p: Vec<u8>)
    ensures
        p@ == seq![0x00u8],
{
    let mut p: Vec<u8> = Vec::new();
    p.push(0x00u8);
    proof {
        assert(p@ =~= seq![0x00u8]);
    }
    p
}

/// Law: the registration packet built from any identity is exactly marker,
/// UTF-8 bytes, marker, and decoding the middle segment recovers the
/// identity.
pub proof fn lemma_registration_round_trip(name: Seq<char>)
    ensures
        spec_packet_well_formed(spec_registration_packet(name)),
        spec_packet_body(spec_registration_packet(name)) == encode_utf8(name),
        valid_utf8(encode_utf8(name)),
        decode_utf8(encode_utf8(name)) == name,
{
    encode_utf8_valid_utf8(name);
    encode_utf8_decode_utf8(name);
    assert(spec_packet_body(spec_registration_packet(name)) =~= encode_utf8(name));
}

} // verus!
