//! Byte-level text helpers: trailing-whitespace trimming and UTF-8 decoding.

use vstd::prelude::*;
use vstd::slice::slice_subrange;
use vstd::utf8::decode_utf8;
use vstd::utf8::valid_utf8;

verus! {

/// True of the bytes that count as ASCII whitespace: space, tab, line feed,
/// form feed and carriage return.
pub open spec fn is_ascii_space(b: u8) -> bool {
    b == 0x20 || b == 0x09 || b == 0x0A || b == 0x0C || b == 0x0D
}

/// The bytes with every trailing ASCII whitespace byte removed.
pub open spec fn spec_trim_end(b: Seq<u8>) -> Seq<u8>
    decreases b.len(),
{
    if b.len() > 0 && is_ascii_space(b.last()) {
        spec_trim_end(b.drop_last())
    } else {
        b
    }
}

fn is_space(b: u8) -> (r: bool)
    ensures
        r == is_ascii_space(b),
{
    b == 0x20 || b == 0x09 || b == 0x0A || b == 0x0C || b == 0x0D
}

/// Removes every trailing ASCII whitespace byte.
pub fn trim_ascii_end(b: &[u8]) -> (r: &[u8])
    ensures
        r@ == spec_trim_end(b@),
{
    let mut end: usize = b.len();
    proof {
        assert(b@.subrange(0, end as int) =~= b@);
    }
    while end > 0 && is_space(b[end - 1])
        invariant
            end <= b@.len(),
            spec_trim_end(b@) == spec_trim_end(b@.subrange(0, end as int)),
        decreases end,
    {
        proof {
            assert(b@.subrange(0, end as int).drop_last() =~= b@.subrange(0, end - 1));
        }
        end = end - 1;
    }
    slice_subrange(b, 0, end)
}

/// Relies on `core::str::from_utf8`: it returns `Ok` exactly when the bytes
/// are valid UTF-8, and then yields the string those bytes encode;
/// `str::to_owned` only copies that string into an owned `String`.
#[verifier::external_body]
pub(crate) fn utf8_to_string(bytes: &[u8]) -> (r: Option<String>)
    ensures
        r is Some <==> valid_utf8(bytes@),
        r matches Some(s) ==> s@ == decode_utf8(bytes@),
{
    match core::str::from_utf8(bytes) {
        Ok(s) => Some(s.to_owned()),
        Err(_) => None,
    }
}

} // verus!
