//! State layer of a non-fungible-token registry.
//!
//! - `tokens`: the token table, one record per identifier, with the owner
//!   index (`index`) that every write keeps in step with the records.
//! - `state`: the fee, the token counter and the balance ledger, kept in a
//!   `cosmwasm_std::MemoryStorage` through the accessors of `storage`.
//! - `owner`: the recorded owner and the rule that decides who may act for it.
//! - `expiration`: approvals and the moment at which they lapse.
//! - `laws`: what holds across calls.

pub mod common;
pub mod error;
pub mod expiration;
pub mod index;
pub mod laws;
pub mod owner;
pub mod state;
pub mod storage;
pub mod text;
pub mod tokens;

pub use crate::common::ChainOwner;
pub use crate::error::ContractError;
pub use crate::expiration::{Approval, BlockInfo, Expiration, Timestamp};
pub use crate::index::{OwnerEntry, TokenIndexes};
pub use crate::owner::{Owner, BRIDGE_WALLET};
pub use crate::state::Cw721Contract;
pub use crate::tokens::{
    token_owner_idx, Bid, IndexedTokens, LongTermRental, Rental, Sell, ShortTermRental, TokenEntry,
    TokenInfo,
};
