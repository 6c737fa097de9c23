//! Approvals and the moment at which one lapses.

use vstd::prelude::*;

verus! {

/// A point in time, in nanoseconds since the Unix epoch.
#[derive(Clone, Copy, Debug, PartialEq, Eq)]
pub struct Timestamp {
    pub nanos: u64,
}

/// The block in which a message is executed.
#[derive(Clone, Debug, PartialEq, Eq)]
pub struct BlockInfo {
    pub height: u64,
    pub time: Timestamp,
    pub chain_id: String,
}

/// The moment at which something lapses: a height, a time, or never.
#[derive(Clone, Copy, Debug, PartialEq, Eq)]
pub enum Expiration {
    /// Lapses once the block's height has reached this height.
    AtHeight(u64),
    /// Lapses once the block's time has reached this time.
    AtTime(Timestamp),
    /// Never lapses.
    Never {},
}

impl Expiration {
    /// Whether the moment has come at the given height and time.
    pub open spec fn reached(&self, height: u64, nanos: u64) -> bool {
        match self {
            Expiration::AtHeight(at) => height >= *at,
            Expiration::AtTime(at) => nanos >= at.nanos,
            Expiration::Never {  } => false,
        }
    }
}

/// `cw_utils::Expiration::is_expired` on the same moment and block. A height
/// has lapsed once the block's height is at least as large, a time once the
/// block's time is, and `Never` at no block.
#[verifier::external_body]
fn expiration_is_expired(expires: &Expiration, block: &BlockInfo) -> (r: bool)
    ensures
        r == expires.reached(block.height, block.time.nanos),
{
    let outside = match expires {
        Expiration::AtHeight(at) => cw_utils::Expiration::AtHeight(*at),
        Expiration::AtTime(at) => cw_utils::Expiration::AtTime(
            cosmwasm_std::Timestamp::from_nanos(at.nanos),
        ),
        Expiration::Never {  } => cw_utils::Expiration::Never {  },
    };
    outside.is_expired(
        &cosmwasm_std::BlockInfo {
            height: block.height,
            time: cosmwasm_std::Timestamp::from_nanos(block.time.nanos),
            chain_id: block.chain_id.clone(),
        },
    )
}

/// The right of an account to transfer or send a token, until it lapses.
#[derive(Clone, Debug, PartialEq, Eq)]
pub struct Approval {
    /// The account that may transfer or send the token.
    pub spender: String,
    /// When the approval lapses.
    pub expires: Expiration,
}

impl Approval {
    /// Whether the approval has lapsed in the given block.
    pub fn is_expired(&self, block: &BlockInfo) -> (r: bool)
        ensures
            r == self.expires.reached(block.height, block.time.nanos),
    {
        expiration_is_expired(&self.expires, block)
    }
}

} // verus!
