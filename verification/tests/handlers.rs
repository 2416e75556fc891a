use transport_io::eventful::{HandlerSlots, ServerError};

#[test]
fn uni_handler_claimed_once() {
    let mut slots = HandlerSlots::new();
    assert!(slots.claim_uni());
    assert!(!slots.claim_uni());
    assert!(!slots.claim_uni());
    assert!(!slots.bi_spawned);
}

#[test]
fn bi_handler_claimed_once() {
    let mut slots = HandlerSlots::new();
    assert!(slots.claim_bi());
    assert!(!slots.claim_bi());
    assert!(!slots.uni_spawned);
}

#[test]
fn kinds_of_stream_are_independent() {
    let mut slots = HandlerSlots::new();
    assert!(slots.claim_bi());
    assert!(slots.claim_uni());
    assert_eq!(slots, HandlerSlots { uni_spawned: true, bi_spawned: true });
}

#[test]
fn server_error_messages() {
    assert_eq!(ServerError::ServerHandlerNotProvided.message(), "connection handler not provided");
    assert_eq!(ServerError::ConnectionHandlerNotProvided.message(), "no stream handler provided");
}
