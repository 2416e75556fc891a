//! The event-driven server: the errors it reports, and the bookkeeping of a
//! session that lets at most one handler take its unidirectional streams and
//! at most one handler take its bidirectional streams.

use vstd::prelude::*;
use wtransport::error::ConnectionError;
use wtransport::Connection;

verus! {

/// Why a server cannot start serving.
#[derive(Debug, Clone, Copy, PartialEq, Eq)]
pub enum ServerError {
    /// No handler was given for incoming sessions.
    ServerHandlerNotProvided,
    /// No handler was given for the streams of a session.
    ConnectionHandlerNotProvided,
}

impl ServerError {
    /// A sentence that describes the error.
    pub fn message(&self) -> (r: &'static str)
        ensures
            *self == ServerError::ServerHandlerNotProvided ==> r@
                == "connection handler not provided"@,
            *self == ServerError::ConnectionHandlerNotProvided ==> r@
                == "no stream handler provided"@,
    {
        match self {
            ServerError::ServerHandlerNotProvided => "connection handler not provided",
            ServerError::ConnectionHandlerNotProvided => "no stream handler provided",
        }
    }
}

/// Why a stream handler could not be attached to a session.
#[derive(Debug)]
pub enum ConnectionHandlerError {
    /// The session failed.
    TransportError(ConnectionError),
    /// A handler of that kind of stream was attached before.
    HandlerAlreadySpawned,
}

impl ConnectionHandlerError {
    /// A sentence that describes the error, or `None` for a transport error,
    /// which is described by the session's own error.
    pub fn message(&self) -> (r: Option<&'static str>)
        ensures
            self is TransportError <==> r is None,
            self is HandlerAlreadySpawned ==> (r matches Some(t) && t@
                == "handler is already set"@),
    {
        match self {
            ConnectionHandlerError::TransportError(_) => None,
            ConnectionHandlerError::HandlerAlreadySpawned => Some("handler is already set"),
        }
    }
}

/// Whether a handler has taken a kind of stream, once `spawned` says whether
/// one had before: the new flag, and whether this attempt is the one that
/// takes it.
pub open spec fn spec_claim(spawned: bool) -> (bool, bool) {
    (true, !spawned)
}

/// Which kinds of stream of a session already have a handler.
#[derive(Debug, Clone, Copy, PartialEq, Eq)]
pub struct HandlerSlots {
    pub uni_spawned: bool,
    pub bi_spawned: bool,
}

impl HandlerSlots {
    /// No kind of stream has a handler yet.
    pub fn new() -> (r: HandlerSlots)
        ensures
            !r.uni_spawned,
            !r.bi_spawned,
    {
        HandlerSlots { uni_spawned: false, bi_spawned: false }
    }

    /// Reserves the unidirectional streams: true the first time, false every
    /// time after.
    pub fn claim_uni(&mut self) -> (r: bool)
        ensures
            final(self).uni_spawned == spec_claim(old(self).uni_spawned).0,
            r == spec_claim(old(self).uni_spawned).1,
            final(self).bi_spawned == old(self).bi_spawned,
    {
        if self.uni_spawned {
            return false;
        }
        self.uni_spawned = true;
        true
    }

    /// Reserves the bidirectional streams: true the first time, false every
    /// time after.
    pub fn claim_bi(&mut self) -> (r: bool)
        ensures
            final(self).bi_spawned == spec_claim(old(self).bi_spawned).0,
            r == spec_claim(old(self).bi_spawned).1,
            final(self).uni_spawned == old(self).uni_spawned,
    {
        if self.bi_spawned {
            return false;
        }
        self.bi_spawned = true;
        true
    }
}

/// An accepted session, with the record of which kinds of stream already
/// have a handler.
pub struct TransportConnection {
    slots: HandlerSlots,
    connection: Connection,
}

impl View for TransportConnection {
    type V = HandlerSlots;

    closed spec fn view(&self) -> HandlerSlots {
        self.slots
    }
}

impl TransportConnection {
    /// The session that this value carries.
    pub closed spec fn session(&self) -> Connection {
        self.connection
    }

    /// A session whose streams have no handler yet.
    pub fn new(connection: Connection) -> (r: TransportConnection)
        ensures
            !r@.uni_spawned,
            !r@.bi_spawned,
            r.session() == connection,
    {
        TransportConnection { slots: HandlerSlots::new(), connection }
    }

    /// The session.
    pub fn connection(&self) -> (r: &Connection)
        ensures
            *r == self.session(),
    {
        &self.connection
    }

    /// Reserves the unidirectional streams for a handler: succeeds the first
    /// time, and fails with `HandlerAlreadySpawned` every time after.
    pub fn claim_uni_handler(&mut self) -> (r: Result<(), ConnectionHandlerError>)
        ensures
            final(self)@.uni_spawned == spec_claim(old(self)@.uni_spawned).0,
            r is Ok <==> spec_claim(old(self)@.uni_spawned).1,
            r is Err ==> r == Err::<(), ConnectionHandlerError>(
                ConnectionHandlerError::HandlerAlreadySpawned,
            ),
            final(self)@.bi_spawned == old(self)@.bi_spawned,
            final(self).session() == old(self).session(),
    {
        if self.slots.claim_uni() {
            Ok(())
        } else {
            Err(ConnectionHandlerError::HandlerAlreadySpawned)
        }
    }

    /// Reserves the bidirectional streams for a handler: succeeds the first
    /// time, and fails with `HandlerAlreadySpawned` every time after.
    pub fn claim_bi_handler(&mut self) -> (r: Result<(), ConnectionHandlerError>)
        ensures
            final(self)@.bi_spawned == spec_claim(old(self)@.bi_spawned).0,
            r is Ok <==> spec_claim(old(self)@.bi_spawned).1,
            r is Err ==> r == Err::<(), ConnectionHandlerError>(
                ConnectionHandlerError::HandlerAlreadySpawned,
            ),
            final(self)@.uni_spawned == old(self)@.uni_spawned,
            final(self).session() == old(self).session(),
    {
        if self.slots.claim_bi() {
            Ok(())
        } else {
            Err(ConnectionHandlerError::HandlerAlreadySpawned)
        }
    }
}

/// A kind of stream is taken by at most one handler: of two attempts in a
/// row, at most one succeeds, and once one has, every later one fails.
pub proof fn lemma_claim_at_most_once(spawned: bool)
    ensures
        !(spec_claim(spawned).1 && spec_claim(spec_claim(spawned).0).1),
        spec_claim(spawned).0,
        !spec_claim(spec_claim(spawned).0).1,
{
}

} // verus!
