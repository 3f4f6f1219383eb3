//! The failure that a chunk source can report.

use hyper::Error as TransportError;
use vstd::prelude::*;
use vstd::std_specs::convert::FromSpecImpl;

verus! {

/// hyper's error type.
#[verifier::external_type_specification]
#[verifier::external_body]
pub struct ExTransportError(TransportError);

/// What can go wrong while a document is read from a chunk source.
#[derive(Debug)]
pub enum Error {
    /// The transport under the chunk source failed.
    Hyper(TransportError),
}

impl From<TransportError> for Error {
    fn from(e: TransportError) -> (err: Self) {
        Error::Hyper(e)
    }
}

impl FromSpecImpl<TransportError> for Error {
    open spec fn obeys_from_spec() -> bool {
        true
    }

    open spec fn from_spec(e: TransportError) -> Self {
        Error::Hyper(e)
    }
}

} // verus!
