use vstd::prelude::*;

verus! {

/// What kind of request failure a `BadRequest` reports to the peer.
#[derive(Debug, PartialEq)]
pub enum ErrorKind {
    Forbidden,
    NotFound,
    InvalidParam,
    Unknown,
    IncompatibleRoomVersion { room_version: String },
}

/// Errors of the federation layer.
#[derive(Debug, PartialEq)]
pub enum Error {
    /// Federation is switched off by the server's configuration.
    BadConfig(String),
    /// A peer sent something that could not be used, or keys could not be had.
    BadServerResponse(String),
    /// A peer answered with a structured error: the peer's name and the error text.
    FederationError(String, String),
    /// A local check on the request failed.
    BadRequest(ErrorKind, String),
    /// Stored data breaks an invariant of the store.
    BadDatabase(String),
}

impl Error {
    /// The error returned by every entry point while federation is disabled.
    pub fn federation_disabled() -> (e: Error)
        ensures
            e is BadConfig,
    {
        Error::BadConfig("Federation is disabled.".to_owned())
    }

    /// A `BadRequest` of the given kind with the given message.
    pub fn bad_request(kind: ErrorKind, msg: &str) -> (e: Error)
        ensures
            e == Error::BadRequest(kind, e->BadRequest_1),
            e->BadRequest_1@ == msg@,
    {
        Error::BadRequest(kind, msg.to_owned())
    }
}

/// Holds when `e` is a `BadRequest` of kind `Forbidden`.
pub open spec fn is_forbidden(e: Error) -> bool {
    e is BadRequest && e->BadRequest_0 is Forbidden
}

/// Holds when `e` is a `BadRequest` of kind `NotFound`.
pub open spec fn is_not_found(e: Error) -> bool {
    e is BadRequest && e->BadRequest_0 is NotFound
}

/// Holds when `e` is a `BadRequest` of kind `InvalidParam`.
pub open spec fn is_invalid_param(e: Error) -> bool {
    e is BadRequest && e->BadRequest_0 is InvalidParam
}

/// Holds when `e` reports the room version `v` as not supported.
pub open spec fn is_incompatible_version(e: Error, v: Seq<char>) -> bool {
    e is BadRequest && e->BadRequest_0 is IncompatibleRoomVersion
        && e->BadRequest_0->IncompatibleRoomVersion_room_version@ == v
}

} // verus!
