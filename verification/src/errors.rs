//! The error taxonomy shared by the registries, the report pipeline and the
//! notification dispatcher.

use vstd::prelude::*;

verus! {

/// Why an operation failed.
///
/// - `NotFound`: the named entity is absent.
/// - `Conflict`: a unique key (a username) is already taken.
/// - `HashingError`: credential hashing failed.
/// - `IOError`: a persistence read or write failed (raised by the caller
///   that performs the file transfer; the library itself never does I/O).
/// - `DeliveryError`: a push message could not be signed, encrypted or
///   transported.
/// - `NoSubscription`: the user has not registered a push endpoint.
#[derive(Clone, Copy, Debug, PartialEq, Eq, Structural)]
pub enum ApiError {
    NotFound,
    Conflict,
    HashingError,
    IOError,
    DeliveryError,
    NoSubscription,
}

} // verus!
