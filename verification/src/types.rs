//! Scalar domain types of the matching engine: every one of them is a
//! transparent wrapper around a `u64`.
use vstd::prelude::*;

verus! {

/// Price; the precision is decided by the venue.
#[derive(Debug, Clone, Copy, PartialEq, Eq, PartialOrd, Ord, Hash, Default, Structural)]
pub struct Price(pub u64);

/// Order quantity.
#[derive(Debug, Clone, Copy, PartialEq, Eq, PartialOrd, Ord, Hash, Default, Structural)]
pub struct Quantity(pub u64);

/// Unique order identifier.
#[derive(Debug, Clone, Copy, PartialEq, Eq, PartialOrd, Ord, Hash, Default, Structural)]
pub struct OrderId(pub u64);

/// Sequence number of a command; commands are applied in increasing order.
#[derive(Debug, Clone, Copy, PartialEq, Eq, PartialOrd, Ord, Hash, Default, Structural)]
pub struct SequenceNumber(pub u64);

/// Unique user identifier.
#[derive(Debug, Clone, Copy, PartialEq, Eq, PartialOrd, Ord, Hash, Default, Structural)]
pub struct UserId(pub u64);

/// Timestamp in milliseconds.
#[derive(Debug, Clone, Copy, PartialEq, Eq, PartialOrd, Ord, Hash, Default, Structural)]
pub struct Timestamp(pub u64);

} // verus!
