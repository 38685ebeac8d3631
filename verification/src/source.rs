//! Why a lookup fails.

use vstd::prelude::*;

verus! {

/// Why a price lookup did not produce listings.
#[derive(Debug, Clone, Copy, PartialEq, Eq, Structural)]
pub enum PricingError {
    /// The marketplace answered with a server-side failure; the caller may retry.
    ServerError,
    /// The request, the response status or the response body was not usable.
    InternalError,
    /// The same item was fetched less than a cooldown ago; skip it and continue.
    IsAlreadyCached,
    /// A sell record carried no item instance id; the record is dropped.
    InvalidIdentity,
}

} // verus!
