//! The simpler server: a session with the record of which kinds of stream
//! already have a handler, each kind taken at most once.

use vstd::prelude::*;
use wtransport::error::ConnectionError;
use wtransport::Connection;

use crate::eventful::{spec_claim, HandlerSlots};

verus! {

/// Why a stream handler could not be attached to a session.
#[derive(Debug)]
pub enum UniStreamHandlerError {
    /// The session failed.
    TransportError(ConnectionError),
    /// A handler of that kind of stream was attached before.
    HandlerAlreadySpawned,
}

impl UniStreamHandlerError {
    /// A sentence that describes the error, or `None` for a transport error,
    /// which is described by the session's own error.
    pub fn message(&self) -> (r: Option<&'static str>)
        ensures
            self is TransportError <==> r is None,
            self is HandlerAlreadySpawned ==> (r matches Some(t) && t@
                == "handler is already set"@),
    {
        match self {
            UniStreamHandlerError::TransportError(_) => None,
            UniStreamHandlerError::HandlerAlreadySpawned => Some("handler is already set"),
        }
    }
}

/// An accepted session, with the record of which kinds of stream already
/// have a handler.
pub struct TransportConnection {
    connection: Connection,
    handlers: HandlerSlots,
}

impl View for TransportConnection {
    type V = HandlerSlots;

    closed spec fn view(&self) -> HandlerSlots {
        self.handlers
    }
}

impl TransportConnection {
    /// The session that this value carries.
    pub closed spec fn session(&self) -> Connection {
        self.connection
    }

    /// A freshly accepted session, whose streams have no handler yet.
    pub fn new(connection: Connection) -> (r: TransportConnection)
        ensures
            !r@.uni_spawned,
            !r@.bi_spawned,
            r.session() == connection,
    {
        TransportConnection { connection, handlers: HandlerSlots::new() }
    }

    /// The session.
    pub fn connection(&self) -> (r: &Connection)
        ensures
            *r == self.session(),
    {
        &self.connection
    }

    /// Reserves the unidirectional streams for a handler: succeeds the first
    /// time, and fails with `HandlerAlreadySpawned` every time after.
    pub fn claim_uni_handler(&mut self) -> (r: Result<(), UniStreamHandlerError>)
        ensures
            final(self)@.uni_spawned == spec_claim(old(self)@.uni_spawned).0,
            r is Ok <==> spec_claim(old(self)@.uni_spawned).1,
            r is Err ==> r == Err::<(), UniStreamHandlerError>(
                UniStreamHandlerError::HandlerAlreadySpawned,
            ),
            final(self)@.bi_spawned == old(self)@.bi_spawned,
            final(self).session() == old(self).session(),
    {
        if self.handlers.claim_uni() {
            Ok(())
        } else {
            Err(UniStreamHandlerError::HandlerAlreadySpawned)
        }
    }

    /// Reserves the bidirectional streams for a handler: succeeds the first
    /// time, and fails with `HandlerAlreadySpawned` every time after.
    pub fn claim_bi_handler(&mut self) -> (r: Result<(), UniStreamHandlerError>)
        ensures
            final(self)@.bi_spawned == spec_claim(old(self)@.bi_spawned).0,
            r is Ok <==> spec_claim(old(self)@.bi_spawned).1,
            r is Err ==> r == Err::<(), UniStreamHandlerError>(
                UniStreamHandlerError::HandlerAlreadySpawned,
            ),
            final(self)@.uni_spawned == old(self)@.uni_spawned,
            final(self).session() == old(self).session(),
    {
        if self.handlers.claim_bi() {
            Ok(())
        } else {
            Err(UniStreamHandlerError::HandlerAlreadySpawned)
        }
    }
}

} // verus!
