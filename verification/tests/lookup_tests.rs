use holepunch::addr::NetAddr;
use holepunch::establish::after_punch;
use holepunch::establish::on_lookup;
use holepunch::establish::EstablishAction;
use holepunch::establish::EstablishState;
use holepunch::establish::POLL_INTERVAL_MS;
use holepunch::lookup::classify_response;
use holepunch::lookup::PeerLookupResult;

#[test]
fn status_404_is_not_found_and_not_fatal() {
    let r = classify_response(404, b"whatever".to_vec());
    assert_eq!(r, PeerLookupResult::NotFound);
    assert_eq!(on_lookup(&r), EstablishAction::Retry);
}

#[test]
fn status_200_with_address_resolves() {
    let r = classify_response(200, b"203.0.113.5:51000".to_vec());
    let addr = NetAddr { a: 203, b: 0, c: 113, d: 5, port: 51000 };
    assert_eq!(r, PeerLookupResult::Resolved(addr));
    assert_eq!(on_lookup(&r), EstablishAction::Punch(addr));
}

#[test]
fn status_200_with_garbage_is_a_fatal_parse_error() {
    let r = classify_response(200, b"not-an-address".to_vec());
    assert_eq!(r, PeerLookupResult::ParseError);
    assert_eq!(on_lookup(&r), EstablishAction::Abort);
}

#[test]
fn other_statuses_are_fatal() {
    let r = classify_response(500, b"oops".to_vec());
    assert_eq!(r, PeerLookupResult::UnexpectedStatus(500, b"oops".to_vec()));
    assert_eq!(on_lookup(&r), EstablishAction::Abort);
}

#[test]
fn transport_errors_mean_retry() {
    assert_eq!(on_lookup(&PeerLookupResult::TransportError), EstablishAction::Retry);
}

#[test]
fn repeated_not_found_polls_steadily() {
    for _ in 0..100 {
        let r = classify_response(404, Vec::new());
        assert_eq!(on_lookup(&r), EstablishAction::Retry);
    }
    assert_eq!(POLL_INTERVAL_MS, 1000);
}

#[test]
fn punch_outcome_decides_the_state() {
    let addr = NetAddr { a: 198, b: 51, c: 100, d: 7, port: 40000 };
    assert_eq!(after_punch(addr, true), EstablishState::Punched(addr));
    assert_eq!(after_punch(addr, false), EstablishState::Unresolved);
}
