//! Types shared with the message layer.

use vstd::prelude::*;

verus! {

/// Who controls a token: an address and the chain it lives on.
#[derive(Clone, Debug, PartialEq, Eq)]
pub struct ChainOwner {
    /// The chain's identifier, such as "eth" or "nibiru".
    pub chain_type: String,
    /// The address in that chain's own form.
    pub address: String,
}

} // verus!
