use holepunch::addr::NetAddr;
use holepunch::session::session_step;
use holepunch::session::SessionEvent;
use holepunch::session::SessionOutcome;
use holepunch::text::trim_ascii_end;

fn peer() -> NetAddr {
    NetAddr { a: 198, b: 51, c: 100, d: 7, port: 40000 }
}

#[test]
fn a_line_becomes_one_datagram_to_the_peer() {
    let out = session_step(&peer(), SessionEvent::LineRead(b"hello\n".to_vec()));
    assert_eq!(out, SessionOutcome::SendToPeer(b"hello\n".to_vec()));
}

#[test]
fn eof_terminates_successfully() {
    let out = session_step(&peer(), SessionEvent::LineEof);
    assert_eq!(out, SessionOutcome::TerminateSuccess);
}

#[test]
fn a_read_error_terminates_with_failure() {
    let out = session_step(&peer(), SessionEvent::LineReadError);
    assert_eq!(out, SessionOutcome::TerminateFailure);
}

#[test]
fn foreign_datagrams_are_discarded() {
    let stranger = NetAddr { a: 198, b: 51, c: 100, d: 7, port: 40001 };
    let out = session_step(&peer(), SessionEvent::Datagram(b"hi\n".to_vec(), stranger));
    assert_eq!(out, SessionOutcome::DiscardForeign);
}

#[test]
fn peer_datagrams_are_delivered_trimmed() {
    let out = session_step(&peer(), SessionEvent::Datagram(b"hi there \r\n".to_vec(), peer()));
    assert_eq!(out, SessionOutcome::Deliver(String::from("hi there")));
}

#[test]
fn malformed_peer_utf8_is_fatal() {
    let out = session_step(&peer(), SessionEvent::Datagram(vec![0xFF, 0xFE], peer()));
    assert_eq!(out, SessionOutcome::TerminateFailure);
}

#[test]
fn receive_errors_keep_the_session_going() {
    let out = session_step(&peer(), SessionEvent::RecvError);
    assert_eq!(out, SessionOutcome::Continue);
}

#[test]
fn trimming_removes_only_trailing_whitespace() {
    assert_eq!(trim_ascii_end(b"a b \t\r\n"), b"a b");
    assert_eq!(trim_ascii_end(b"  a"), b"  a");
    assert_eq!(trim_ascii_end(b"\n"), b"");
    assert_eq!(trim_ascii_end(b""), b"");
}
