//! Types of the WebTransport crate that the library carries through without
//! looking inside.

use vstd::prelude::*;

verus! {

/// `wtransport::Connection`, a WebTransport session. Declared so that a
/// value can be carried and handed back; nothing is assumed of what is in it.
#[verifier::external_type_specification]
#[verifier::external_body]
pub struct ExConnection(wtransport::Connection);

/// `wtransport::error::ConnectionError`, the error of a failed session
/// operation. Carried inside the library's error types; nothing is assumed of
/// what is in it.
#[verifier::external_type_specification]
#[verifier::external_body]
pub struct ExConnectionError(wtransport::error::ConnectionError);

/// `wtransport::error::StreamReadExactError`, the error of a stream read that
/// did not fill its buffer. Carried inside the library's error types; nothing
/// is assumed of what is in it.
#[verifier::external_type_specification]
#[verifier::external_body]
pub struct ExStreamReadExactError(wtransport::error::StreamReadExactError);

} // verus!
