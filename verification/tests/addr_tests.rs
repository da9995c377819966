use holepunch::addr::parse_addr;
use holepunch::addr::NetAddr;

#[test]
fn parses_a_plain_address() {
    let r = parse_addr(b"203.0.113.5:51000");
    assert_eq!(r, Some(NetAddr { a: 203, b: 0, c: 113, d: 5, port: 51000 }));
}

#[test]
fn parses_extreme_values() {
    assert_eq!(parse_addr(b"0.0.0.0:0"), Some(NetAddr { a: 0, b: 0, c: 0, d: 0, port: 0 }));
    assert_eq!(
        parse_addr(b"255.255.255.255:65535"),
        Some(NetAddr { a: 255, b: 255, c: 255, d: 255, port: 65535 })
    );
}

#[test]
fn rejects_text_that_is_no_address() {
    assert_eq!(parse_addr(b"not-an-address"), None);
    assert_eq!(parse_addr(b""), None);
    assert_eq!(parse_addr(b":"), None);
}

#[test]
fn rejects_out_of_range_components() {
    assert_eq!(parse_addr(b"256.0.0.1:80"), None);
    assert_eq!(parse_addr(b"1.2.3.4:65536"), None);
    assert_eq!(parse_addr(b"1000.2.3.4:80"), None);
}

#[test]
fn rejects_leading_zeros() {
    assert_eq!(parse_addr(b"01.2.3.4:80"), None);
    assert_eq!(parse_addr(b"1.2.3.4:080"), None);
    assert_eq!(parse_addr(b"1.02.3.4:80"), None);
}

#[test]
fn rejects_missing_pieces() {
    assert_eq!(parse_addr(b"1.2.3:80"), None);
    assert_eq!(parse_addr(b"1.2.3.4"), None);
    assert_eq!(parse_addr(b"1.2.3.4:"), None);
    assert_eq!(parse_addr(b".2.3.4:80"), None);
}

#[test]
fn rejects_surrounding_noise() {
    assert_eq!(parse_addr(b" 1.2.3.4:80"), None);
    assert_eq!(parse_addr(b"1.2.3.4:80 "), None);
    assert_eq!(parse_addr(b"1.2.3.4:80x"), None);
    assert_eq!(parse_addr(b"1.2.3.4.5:80"), None);
}
