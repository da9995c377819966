//! IPv4 socket addresses as plain values, and the parser for the textual
//! `A.B.C.D:port` form the rendezvous server answers lookups with.
//!
//! The parser accepts exactly the canonical renderings: every component in
//! decimal with no sign and no leading zero, three dots and one colon, and
//! nothing before or after. `parse_addr` says so both ways: a `Some` result
//! renders back to the input, and on a `None` no address renders to it.

use vstd::arithmetic::div_mod::lemma_fundamental_div_mod;
use vstd::arithmetic::div_mod::lemma_fundamental_div_mod_converse;
use vstd::arithmetic::div_mod::lemma_mod_bound;
use vstd::prelude::*;

verus! {

/// An IPv4 address and UDP port: the concrete form of the Peer Reference
/// and of the rendezvous endpoints.
#[derive(Clone, Copy, Debug, PartialEq, Eq, Structural)]
pub struct NetAddr {
    pub a: u8,
    pub b: u8,
    pub c: u8,
    pub d: u8,
    pub port: u16,
}

/// True of ASCII decimal digit bytes.
pub open spec fn is_digit(x: u8) -> bool {
    0x30 <= x <= 0x39
}

/// The canonical decimal digits of `n`: no sign, no leading zero.
pub open spec fn dec_rep(n: nat) -> Seq<u8>
    decreases n,
{
    if n < 10 {
        seq![(n + 0x30) as u8]
    } else {
        dec_rep(n / 10) + seq![(n % 10 + 0x30) as u8]
    }
}

/// The number the digit bytes `d` spell in decimal.
pub open spec fn digits_value(d: Seq<u8>) -> nat
    decreases d.len(),
{
    if d.len() == 0 {
        0
    } else {
        (digits_value(d.drop_last()) * 10 + (d.last() - 0x30)) as nat
    }
}

/// The textual `A.B.C.D:port` form of an address, as bytes.
pub open spec fn addr_text(a: NetAddr) -> Seq<u8> {
    dec_rep(a.a as nat) + seq![0x2Eu8] + dec_rep(a.b as nat) + seq![0x2Eu8] + dec_rep(a.c as nat)
        + seq![0x2Eu8] + dec_rep(a.d as nat) + seq![0x3Au8] + dec_rep(a.port as nat)
}

/// Where the run of digit bytes starting at `i` ends.
pub open spec fn digits_end(b: Seq<u8>, i: int) -> int
    decreases b.len() - i,
{
    if 0 <= i < b.len() && is_digit(b[i]) {
        digits_end(b, i + 1)
    } else {
        i
    }
}

proof fn lemma_dec_rep_digits(n: nat)
    ensures
        dec_rep(n).len() >= 1,
        forall|k: int| 0 <= k < dec_rep(n).len() ==> is_digit(#[trigger] dec_rep(n)[k]),
        n >= 1 ==> dec_rep(n)[0] != 0x30,
        n < 10 ==> dec_rep(n).len() == 1,
        digits_value(dec_rep(n)) == n,
    decreases n,
{
    if n < 10 {
        reveal_with_fuel(digits_value, 2);
        assert(dec_rep(n) == seq![(n + 0x30) as u8]);
        assert(dec_rep(n).drop_last() =~= Seq::<u8>::empty());
        assert(digits_value(dec_rep(n)) == n);
    } else {
        lemma_dec_rep_digits(n / 10);
        lemma_fundamental_div_mod(n as int, 10);
        lemma_mod_bound(n as int, 10);
        let p = dec_rep(n / 10);
        let d = dec_rep(n);
        assert(d == p + seq![(n % 10 + 0x30) as u8]);
        assert(d.drop_last() =~= p);
        assert(d.last() == (n % 10 + 0x30) as u8);
        assert(digits_value(d) == digits_value(p) * 10 + n % 10);
        assert(n / 10 >= 1);
        assert(d[0] == p[0]);
    }
}

proof fn lemma_digits_value_pos(d: Seq<u8>)
    requires
        d.len() >= 1,
        forall|k: int| 0 <= k < d.len() ==> is_digit(#[trigger] d[k]),
        d[0] != 0x30,
    ensures
        digits_value(d) >= 1,
    decreases d.len(),
{
    if d.len() == 1 {
        assert(d.last() == d[0]);
    } else {
        let p = d.drop_last();
        assert(p[0] == d[0]);
        assert(forall|k: int| 0 <= k < p.len() ==> is_digit(#[trigger] p[k]));
        lemma_digits_value_pos(p);
    }
}

proof fn lemma_canonical_digits(d: Seq<u8>)
    requires
        d.len() >= 1,
        forall|k: int| 0 <= k < d.len() ==> is_digit(#[trigger] d[k]),
        d.len() > 1 ==> d[0] != 0x30,
    ensures
        dec_rep(digits_value(d)) == d,
    decreases d.len(),
{
    if d.len() == 1 {
        reveal_with_fuel(digits_value, 2);
        let v = digits_value(d);
        assert(d.drop_last() =~= Seq::<u8>::empty());
        assert(v == d[0] - 0x30);
        assert(dec_rep(v) =~= d);
    } else {
        let p = d.drop_last();
        let e: nat = (d.last() - 0x30) as nat;
        assert(p[0] == d[0]);
        assert(forall|k: int| 0 <= k < p.len() ==> is_digit(#[trigger] p[k]));
        lemma_canonical_digits(p);
        lemma_digits_value_pos(p);
        let v = digits_value(d);
        assert(v == digits_value(p) * 10 + e);
        assert(v >= 10);
        lemma_fundamental_div_mod_converse(v as int, 10, digits_value(p) as int, e as int);
        assert(v / 10 == digits_value(p) && v % 10 == e);
        assert(dec_rep(v) == dec_rep(digits_value(p)) + seq![(e + 0x30) as u8]);
        assert(dec_rep(v) =~= d);
    }
}

proof fn lemma_dec_rep_len(n: nat)
    ensures
        n < 10 ==> dec_rep(n).len() == 1,
        n < 100 ==> dec_rep(n).len() <= 2,
        n < 1000 ==> dec_rep(n).len() <= 3,
        n < 10000 ==> dec_rep(n).len() <= 4,
        n < 100000 ==> dec_rep(n).len() <= 5,
    decreases n,
{
    if n >= 10 {
        lemma_dec_rep_len(n / 10);
        lemma_fundamental_div_mod(n as int, 10);
        lemma_mod_bound(n as int, 10);
    }
}

proof fn lemma_digits_value_small(d: Seq<u8>)
    requires
        forall|k: int| 0 <= k < d.len() ==> is_digit(#[trigger] d[k]),
    ensures
        d.len() == 0 ==> digits_value(d) == 0,
        d.len() <= 1 ==> digits_value(d) <= 9,
        d.len() <= 2 ==> digits_value(d) <= 99,
        d.len() <= 3 ==> digits_value(d) <= 999,
        d.len() <= 4 ==> digits_value(d) <= 9999,
        d.len() <= 5 ==> digits_value(d) <= 99999,
    decreases d.len(),
{
    if d.len() > 0 {
        let p = d.drop_last();
        assert(forall|k: int| 0 <= k < p.len() ==> is_digit(#[trigger] p[k]));
        lemma_digits_value_small(p);
    }
}

proof fn lemma_digits_end_of_run(b: Seq<u8>, i: int, j: int)
    requires
        0 <= i <= j <= b.len(),
        forall|k: int| i <= k < j ==> is_digit(#[trigger] b[k]),
        j == b.len() || !is_digit(b[j]),
    ensures
        digits_end(b, i) == j,
    decreases j - i,
{
    if i < j {
        lemma_digits_end_of_run(b, i + 1, j);
    }
}

spec fn e1_of(a: NetAddr) -> int {
    dec_rep(a.a as nat).len() as int
}

spec fn e2_of(a: NetAddr) -> int {
    e1_of(a) + 1 + dec_rep(a.b as nat).len()
}

spec fn e3_of(a: NetAddr) -> int {
    e2_of(a) + 1 + dec_rep(a.c as nat).len()
}

spec fn e4_of(a: NetAddr) -> int {
    e3_of(a) + 1 + dec_rep(a.d as nat).len()
}

spec fn e5_of(a: NetAddr) -> int {
    e4_of(a) + 1 + dec_rep(a.port as nat).len()
}

#[verifier::rlimit(40)]
proof fn lemma_structure(b: Seq<u8>, a: NetAddr)
    requires
        b == addr_text(a),
    ensures
        b.len() == e5_of(a),
        0 < e1_of(a) < b.len(),
        e2_of(a) < b.len(),
        e3_of(a) < b.len(),
        e4_of(a) < b.len(),
        digits_end(b, 0) == e1_of(a),
        b.subrange(0, e1_of(a)) == dec_rep(a.a as nat),
        b[e1_of(a)] == 0x2E,
        digits_end(b, e1_of(a) + 1) == e2_of(a),
        b.subrange(e1_of(a) + 1, e2_of(a)) == dec_rep(a.b as nat),
        b[e2_of(a)] == 0x2E,
        digits_end(b, e2_of(a) + 1) == e3_of(a),
        b.subrange(e2_of(a) + 1, e3_of(a)) == dec_rep(a.c as nat),
        b[e3_of(a)] == 0x2E,
        digits_end(b, e3_of(a) + 1) == e4_of(a),
        b.subrange(e3_of(a) + 1, e4_of(a)) == dec_rep(a.d as nat),
        b[e4_of(a)] == 0x3A,
        digits_end(b, e4_of(a) + 1) == e5_of(a),
        b.subrange(e4_of(a) + 1, e5_of(a)) == dec_rep(a.port as nat),
{
    let d1 = dec_rep(a.a as nat);
    let d2 = dec_rep(a.b as nat);
    let d3 = dec_rep(a.c as nat);
    let d4 = dec_rep(a.d as nat);
    let d5 = dec_rep(a.port as nat);
    lemma_dec_rep_digits(a.a as nat);
    lemma_dec_rep_digits(a.b as nat);
    lemma_dec_rep_digits(a.c as nat);
    lemma_dec_rep_digits(a.d as nat);
    lemma_dec_rep_digits(a.port as nat);
    assert(b.subrange(0, e1_of(a)) =~= d1);
    assert(b.subrange(e1_of(a) + 1, e2_of(a)) =~= d2);
    assert(b.subrange(e2_of(a) + 1, e3_of(a)) =~= d3);
    assert(b.subrange(e3_of(a) + 1, e4_of(a)) =~= d4);
    assert(b.subrange(e4_of(a) + 1, e5_of(a)) =~= d5);
    assert forall|k: int| 0 <= k < e1_of(a) implies is_digit(b[k]) by {
        assert(b[k] == d1[k]);
    }
    assert forall|k: int| e1_of(a) + 1 <= k < e2_of(a) implies is_digit(b[k]) by {
        assert(b[k] == d2[k - (e1_of(a) + 1)]);
    }
    assert forall|k: int| e2_of(a) + 1 <= k < e3_of(a) implies is_digit(b[k]) by {
        assert(b[k] == d3[k - (e2_of(a) + 1)]);
    }
    assert forall|k: int| e3_of(a) + 1 <= k < e4_of(a) implies is_digit(b[k]) by {
        assert(b[k] == d4[k - (e3_of(a) + 1)]);
    }
    assert forall|k: int| e4_of(a) + 1 <= k < e5_of(a) implies is_digit(b[k]) by {
        assert(b[k] == d5[k - (e4_of(a) + 1)]);
    }
    lemma_digits_end_of_run(b, 0, e1_of(a));
    lemma_digits_end_of_run(b, e1_of(a) + 1, e2_of(a));
    lemma_digits_end_of_run(b, e2_of(a) + 1, e3_of(a));
    lemma_digits_end_of_run(b, e3_of(a) + 1, e4_of(a));
    lemma_digits_end_of_run(b, e4_of(a) + 1, e5_of(a));
}

fn is_digit_byte(x: u8) -> (r: bool)
    ensures
        r == is_digit(x),
{
    0x30 <= x && x <= 0x39
}

/// Reads one canonical decimal number out of `b` starting at `start`: the
/// whole digit run must be canonical (no leading zero) and spell a value of
/// at most `limit`, or no value of at most `limit` renders to that run.
fn scan_number(b: &[u8], start: usize, limit: u32, max_len: usize) -> (r: Option<(u32, usize)>)
    requires
        start <= b@.len(),
        (limit == 255 && max_len == 3) || (limit == 65535 && max_len == 5),
    ensures
        r matches Some(pair) ==> {
            &&& start < pair.1 <= b@.len()
            &&& pair.1 == digits_end(b@, start as int)
            &&& pair.0 <= limit
            &&& dec_rep(pair.0 as nat) == b@.subrange(start as int, pair.1 as int)
        },
        r is None ==> forall|v: u32|
            v <= limit ==> dec_rep(v as nat) != b@.subrange(
                start as int,
                digits_end(b@, start as int),
            ),
{
    let len: usize = b.len();
    let mut end: usize = start;
    while end < len && is_digit_byte(b[end])
        invariant
            start <= end <= len == b@.len(),
            forall|k: int| start <= k < end ==> is_digit(#[trigger] b@[k]),
            digits_end(b@, start as int) == digits_end(b@, end as int),
        decreases len - end,
    {
        proof {
            assert(digits_end(b@, end as int) == digits_end(b@, end + 1));
        }
        end = end + 1;
    }
    proof {
        assert(digits_end(b@, end as int) == end);
    }
    let ghost run = b@.subrange(start as int, end as int);
    if end == start {
        proof {
            assert forall|v: u32| v <= limit implies dec_rep(v as nat) != run by {
                lemma_dec_rep_digits(v as nat);
            }
        }
        return None;
    }
    if end - start > max_len {
        proof {
            assert forall|v: u32| v <= limit implies dec_rep(v as nat) != run by {
                lemma_dec_rep_len(v as nat);
            }
        }
        return None;
    }
    if end - start > 1 && b[start] == 0x30 {
        proof {
            assert(run[0] == 0x30);
            assert forall|v: u32| v <= limit implies dec_rep(v as nat) != run by {
                lemma_dec_rep_digits(v as nat);
                if dec_rep(v as nat) == run {
                    assert(dec_rep(v as nat)[0] == 0x30);
                    assert(v == 0);
                    assert(dec_rep(v as nat).len() == 1);
                }
            }
        }
        return None;
    }
    let mut val: u32 = 0;
    let mut k: usize = start;
    while k < end
        invariant
            start <= k <= end <= b@.len(),
            end - start <= max_len <= 5,
            forall|j: int| start <= j < end ==> is_digit(#[trigger] b@[j]),
            val == digits_value(b@.subrange(start as int, k as int)),
        decreases end - k,
    {
        proof {
            lemma_digits_value_small(b@.subrange(start as int, k as int));
            assert(b@.subrange(start as int, k + 1).drop_last() =~= b@.subrange(
                start as int,
                k as int,
            ));
            assert(b@.subrange(start as int, k + 1).last() == b@[k as int]);
        }
        val = val * 10 + (b[k] - 0x30) as u32;
        k = k + 1;
    }
    proof {
        lemma_canonical_digits(run);
    }
    if val > limit {
        proof {
            assert forall|v: u32| v <= limit implies dec_rep(v as nat) != run by {
                lemma_dec_rep_digits(v as nat);
                if dec_rep(v as nat) == run {
                    assert(digits_value(run) == v);
                }
            }
        }
        return None;
    }
    Some((val, end))
}

/// Parses the textual `A.B.C.D:port` form of an address. Returns the address
/// whose canonical rendering the input is, and `None` exactly when the input
/// is no address's rendering.
pub fn parse_addr(b: &[u8]) -> (r: Option<NetAddr>)
    ensures
        r matches Some(a) ==> b@ == addr_text(a),
        r is None ==> forall|a: NetAddr| b@ != addr_text(a),
{
    let r1 = scan_number(b, 0, 255, 3);
    let (v1, j1) = match r1 {
        Some(pair) => pair,
        None => {
            proof {
                assert forall|a: NetAddr| b@ != addr_text(a) by {
                    if b@ == addr_text(a) {
                        lemma_structure(b@, a);
                        assert(dec_rep((a.a as u32) as nat) == b@.subrange(
                            0,
                            digits_end(b@, 0),
                        ));
                    }
                }
            }
            return None;
        },
    };
    if j1 >= b.len() || b[j1] != 0x2E {
        proof {
            assert forall|a: NetAddr| b@ != addr_text(a) by {
                if b@ == addr_text(a) {
                    lemma_structure(b@, a);
                }
            }
        }
        return None;
    }
    let r2 = scan_number(b, j1 + 1, 255, 3);
    let (v2, j2) = match r2 {
        Some(pair) => pair,
        None => {
            proof {
                assert forall|a: NetAddr| b@ != addr_text(a) by {
                    if b@ == addr_text(a) {
                        lemma_structure(b@, a);
                        assert(dec_rep((a.b as u32) as nat) == b@.subrange(
                            j1 + 1,
                            digits_end(b@, j1 + 1),
                        ));
                    }
                }
            }
            return None;
        },
    };
    if j2 >= b.len() || b[j2] != 0x2E {
        proof {
            assert forall|a: NetAddr| b@ != addr_text(a) by {
                if b@ == addr_text(a) {
                    lemma_structure(b@, a);
                }
            }
        }
        return None;
    }
    let r3 = scan_number(b, j2 + 1, 255, 3);
    let (v3, j3) = match r3 {
        Some(pair) => pair,
        None => {
            proof {
                assert forall|a: NetAddr| b@ != addr_text(a) by {
                    if b@ == addr_text(a) {
                        lemma_structure(b@, a);
                        assert(dec_rep((a.c as u32) as nat) == b@.subrange(
                            j2 + 1,
                            digits_end(b@, j2 + 1),
                        ));
                    }
                }
            }
            return None;
        },
    };
    if j3 >= b.len() || b[j3] != 0x2E {
        proof {
            assert forall|a: NetAddr| b@ != addr_text(a) by {
                if b@ == addr_text(a) {
                    lemma_structure(b@, a);
                }
            }
        }
        return None;
    }
    let r4 = scan_number(b, j3 + 1, 255, 3);
    let (v4, j4) = match r4 {
        Some(pair) => pair,
        None => {
            proof {
                assert forall|a: NetAddr| b@ != addr_text(a) by {
                    if b@ == addr_text(a) {
                        lemma_structure(b@, a);
                        assert(dec_rep((a.d as u32) as nat) == b@.subrange(
                            j3 + 1,
                            digits_end(b@, j3 + 1),
                        ));
                    }
                }
            }
            return None;
        },
    };
    if j4 >= b.len() || b[j4] != 0x3A {
        proof {
            assert forall|a: NetAddr| b@ != addr_text(a) by {
                if b@ == addr_text(a) {
                    lemma_structure(b@, a);
                }
            }
        }
        return None;
    }
    let r5 = scan_number(b, j4 + 1, 65535, 5);
    let (v5, j5) = match r5 {
        Some(pair) => pair,
        None => {
            proof {
                assert forall|a: NetAddr| b@ != addr_text(a) by {
                    if b@ == addr_text(a) {
                        lemma_structure(b@, a);
                        assert(dec_rep((a.port as u32) as nat) == b@.subrange(
                            j4 + 1,
                            digits_end(b@, j4 + 1),
                        ));
                    }
                }
            }
            return None;
        },
    };
    if j5 != b.len() {
        proof {
            assert forall|a: NetAddr| b@ != addr_text(a) by {
                if b@ == addr_text(a) {
                    lemma_structure(b@, a);
                }
            }
        }
        return None;
    }
    let out = NetAddr { a: v1 as u8, b: v2 as u8, c: v3 as u8, d: v4 as u8, port: v5 as u16 };
    proof {
        assert(dec_rep(out.a as nat) == b@.subrange(0, j1 as int));
        assert(dec_rep(out.b as nat) == b@.subrange(j1 + 1, j2 as int));
        assert(dec_rep(out.c as nat) == b@.subrange(j2 + 1, j3 as int));
        assert(dec_rep(out.d as nat) == b@.subrange(j3 + 1, j4 as int));
        assert(dec_rep(out.port as nat) == b@.subrange(j4 + 1, j5 as int));
        assert(b@ =~= addr_text(out));
    }
    Some(out)
}

} // verus!
