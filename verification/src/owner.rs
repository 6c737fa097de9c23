//! The recorded owner of a token and the rule that decides who may act for it.

use vstd::prelude::*;
use crate::text::text_eq;

verus! {

/// The one address that may act for every owner recorded on a foreign chain.
pub const BRIDGE_WALLET: &'static str = "nibiru_bridge_address";

/// The chain type of owners that act for themselves.
pub const NATIVE_CHAIN: &'static str = "nibiru";

/// The owner recorded for a token.
#[derive(Clone, Debug, PartialEq, Eq)]
pub struct Owner {
    pub chain_type: String,
    pub address: String,
}

impl Owner {
    /// Whether the owner lives on the native chain.
    pub open spec fn is_native(&self) -> bool {
        self.chain_type@ == NATIVE_CHAIN@
    }

    /// The authorization rule: a native owner is matched by its own address,
    /// an owner on any other chain by the bridge address alone.
    pub open spec fn authorizes(&self, sender: Seq<char>) -> bool {
        if self.is_native() {
            self.address@ == sender
        } else {
            sender == BRIDGE_WALLET@
        }
    }

    /// Decides whether `sender` may act as this owner.
    pub fn validate_sender(&self, sender: &str) -> (r: bool)
        ensures
            r == self.authorizes(sender@),
    {
        if text_eq(self.chain_type.as_str(), NATIVE_CHAIN) {
            text_eq(self.address.as_str(), sender)
        } else {
            text_eq(sender, BRIDGE_WALLET)
        }
    }
}

/// An owner on a foreign chain is matched by the bridge address and by no
/// other, its own included; a native owner by its own address and no other.
pub proof fn lemma_authorizes_one_sender(owner: Owner, a: Seq<char>, b: Seq<char>)
    requires
        owner.authorizes(a),
        owner.authorizes(b),
    ensures
        a == b,
        !owner.is_native() ==> a == BRIDGE_WALLET@,
        owner.is_native() ==> a == owner.address@,
{
}

} // verus!
