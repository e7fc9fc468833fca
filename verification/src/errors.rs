//! Why an order is refused.

use vstd::prelude::*;

verus! {

/// The reasons for which an order is refused.
#[derive(Debug, Clone, Copy, PartialEq, Eq, Structural)]
pub enum OrderError {
    InvalidQuantity,
    InvalidPrice,
    ChannelError,
}

impl OrderError {
    /// The human-readable description of the error.
    pub fn message(&self) -> (s: &'static str)
        ensures
            *self == OrderError::InvalidQuantity ==> s@ == "Invalid order quantity"@,
            *self == OrderError::InvalidPrice ==> s@ == "Invalid order price"@,
            *self == OrderError::ChannelError ==> s@ == "Channel send error"@,
    {
        match self {
            OrderError::InvalidQuantity => "Invalid order quantity",
            OrderError::InvalidPrice => "Invalid order price",
            OrderError::ChannelError => "Channel send error",
        }
    }
}

} // verus!
