//! The failures that the state layer reports.

use vstd::prelude::*;
use cosmwasm_std::StdError;

verus! {

/// Why an operation on the state did not take place.
#[derive(Debug)]
pub enum ContractError {
    /// The store failed, or a stored value could not be read back.
    Std(StdError),
    /// The new value would not fit its integer type.
    Overflow,
    /// The new value would fall below zero.
    Underflow,
}

} // verus!
