use holepunch::packet::punch_packet;
use holepunch::packet::registration_identity;
use holepunch::packet::registration_packet;

#[test]
fn registration_packet_is_marker_utf8_marker() {
    let p = registration_packet("one");
    assert_eq!(p, vec![0x00, b'o', b'n', b'e', 0xFF]);
}

#[test]
fn registration_packet_keeps_multibyte_identity() {
    let name = "péer";
    let mut expected: Vec<u8> = Vec::new();
    expected.push(0x00);
    expected.extend_from_slice(name.as_bytes());
    expected.push(0xFF);
    assert_eq!(registration_packet(name), expected);
}

#[test]
fn registration_round_trip_recovers_identity() {
    let p = registration_packet("alice");
    assert_eq!(registration_identity(&p), Some(String::from("alice")));
}

#[test]
fn registration_round_trip_multibyte() {
    let p = registration_packet("почта");
    assert_eq!(registration_identity(&p), Some(String::from("почта")));
}

#[test]
fn registration_identity_rejects_short_packets() {
    assert_eq!(registration_identity(&[]), None);
    assert_eq!(registration_identity(&[0x00]), None);
}

#[test]
fn registration_identity_rejects_wrong_markers() {
    assert_eq!(registration_identity(&[0x01, b'a', 0xFF]), None);
    assert_eq!(registration_identity(&[0x00, b'a', 0xFE]), None);
}

#[test]
fn registration_identity_rejects_invalid_utf8_body() {
    assert_eq!(registration_identity(&[0x00, 0xFF, 0xFF]), None);
}

#[test]
fn registration_identity_accepts_empty_body() {
    assert_eq!(registration_identity(&[0x00, 0xFF]), Some(String::new()));
}

#[test]
fn punch_packet_is_one_zero_byte() {
    assert_eq!(punch_packet(), vec![0x00]);
}
