use vstd::prelude::*;

verus! {

/// The relay's error taxonomy.
///
/// Every failure of a relay operation is one of these: a transport copy or
/// send that failed, a descriptor that could not be encoded, a stored value
/// that could not be decoded back into a descriptor, or a store backend that
/// could not be reached.
#[derive(Clone, Copy, Debug, PartialEq, Eq, Structural)]
pub enum Error {
    TransportError,
    SerializationError,
    DeserializationError,
    StoreUnavailable,
}

} // verus!
