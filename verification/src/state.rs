//! The contract's state: the token table, and the fee, the token counter and
//! the balance ledger, each under a namespace of its own in the store.
//!
//! Underflow and overflow are refused: an operation whose result would not
//! fit returns an error and leaves the store as it was.

use vstd::prelude::*;
use vstd::string::*;
use vstd::utf8::*;
use cosmwasm_std::MemoryStorage;
use crate::error::ContractError;
use crate::text::text_eq;
use crate::tokens::{IndexedTokens, TokenInfo};
use crate::storage::{
    entry_key, item_key, item_may_load, item_save, json_u128, json_u64, map_may_load, map_save,
    namespace_prefix, parsed_u128, parsed_u64, storage_entries, MAX_NAMESPACE_LEN,
};

verus! {

/// The counter that the entries hold under a key: zero where the key is
/// absent, `None` where the bytes under it are no counter.
pub open spec fn counter_at(entries: Map<Seq<u8>, Seq<u8>>, key: Seq<u8>) -> Option<u64> {
    if entries.contains_key(key) {
        parsed_u64(entries[key])
    } else {
        Some(0)
    }
}

/// The amount that the entries hold under a key: zero where the key is
/// absent, `None` where the bytes under it are no amount.
pub open spec fn amount_at(entries: Map<Seq<u8>, Seq<u8>>, key: Seq<u8>) -> Option<u128> {
    if entries.contains_key(key) {
        parsed_u128(entries[key])
    } else {
        Some(0)
    }
}

/// Whether the key of the item `name` starts with what starts every key of
/// the map `namespace`.
pub fn starts_with_prefix(name: &str, namespace: &str) -> (r: bool)
    requires
        encode_utf8(namespace@).len() <= MAX_NAMESPACE_LEN,
    ensures
        r == namespace_prefix(namespace@).is_prefix_of(item_key(name@)),
{
    let key = name.as_bytes();
    let space = namespace.as_bytes();
    let ghost prefix = namespace_prefix(namespace@);
    proof {
        assert(prefix.len() == space@.len() + 2);
        assert(prefix[0] == (space@.len() / 256) as u8);
        assert(prefix[1] == (space@.len() % 256) as u8);
        assert forall|k: int| 0 <= k < space@.len() implies prefix[k + 2] == space@[k] by {}
    }
    if key.len() < 2 || key.len() - 2 < space.len() {
        return false;
    }
    if key[0] != (space.len() / 256) as u8 || key[1] != (space.len() % 256) as u8 {
        assert(prefix[0] == key@.subrange(0, prefix.len() as int)[0] || prefix[1]
            == key@.subrange(0, prefix.len() as int)[1] || !prefix.is_prefix_of(key@));
        return false;
    }
    let mut i: usize = 0;
    while i < space.len()
        invariant
            key@ == encode_utf8(name@),
            space@ == encode_utf8(namespace@),
            space@.len() <= MAX_NAMESPACE_LEN,
            key@.len() >= space@.len() + 2,
            i <= space@.len(),
            prefix == namespace_prefix(namespace@),
            prefix.len() == space@.len() + 2,
            forall|k: int| 0 <= k < space@.len() ==> prefix[k + 2] == space@[k],
            forall|k: int| 0 <= k < i ==> key@[k + 2] == space@[k],
        decreases space@.len() - i,
    {
        if key[i + 2] != space[i] {
            assert(!prefix.is_prefix_of(key@)) by {
                if prefix.is_prefix_of(key@) {
                    assert(key@.subrange(0, prefix.len() as int)[i + 2] == prefix[i + 2]);
                }
            }
            return false;
        }
        i += 1;
    }
    assert(prefix =~= key@.subrange(0, prefix.len() as int));
    true
}

/// The contract's state: the token table, and the namespaces under which the
/// store holds the rest.
pub struct Cw721Contract<T> {
    pub contract_info: String,
    pub token_count: String,
    pub fee: String,
    pub balances: String,
    /// Keyed by (granter, operator): the operator has full control over the
    /// granter's account.
    pub operators: String,
    /// The namespace under which the token records are persisted.
    pub tokens_namespace: String,
    /// The namespace under which the owner index is persisted.
    pub tokens_owner_namespace: String,
    /// The token records and their owner index.
    pub tokens: IndexedTokens<T>,
}

impl<T> Cw721Contract<T> {
    /// The namespaces that hold a single value each.
    pub open spec fn item_names(&self) -> Seq<Seq<char>> {
        seq![self.contract_info@, self.token_count@, self.fee@]
    }

    /// The namespaces that hold one value per key.
    pub open spec fn map_names(&self) -> Seq<Seq<char>> {
        seq![
            self.balances@,
            self.operators@,
            self.tokens_namespace@,
            self.tokens_owner_namespace@,
        ]
    }

    /// The namespace of the balances is short enough for the keys of a map.
    pub open spec fn ledger_addressable(&self) -> bool {
        encode_utf8(self.balances@).len() <= MAX_NAMESPACE_LEN
    }

    /// No two namespaces can address the same key of the store, and every
    /// map's namespace is short enough for its keys.
    pub open spec fn wf(&self) -> bool {
        &&& self.ledger_addressable()
        &&& self.item_names().no_duplicates()
        &&& self.map_names().no_duplicates()
        &&& forall|m: int|
            0 <= m < self.map_names().len() ==> encode_utf8(#[trigger] self.map_names()[m]).len()
                <= MAX_NAMESPACE_LEN
        &&& forall|i: int, m: int|
            0 <= i < self.item_names().len() && 0 <= m < self.map_names().len()
                ==> !namespace_prefix(#[trigger] self.map_names()[m]).is_prefix_of(
                item_key(#[trigger] self.item_names()[i]),
            )
    }

    /// The key of the fee.
    pub open spec fn fee_key(&self) -> Seq<u8> {
        item_key(self.fee@)
    }

    /// The key of the token counter.
    pub open spec fn count_key(&self) -> Seq<u8> {
        item_key(self.token_count@)
    }

    /// The key of a denomination's balance.
    pub open spec fn balance_key(&self, denom: Seq<char>) -> Seq<u8> {
        entry_key(self.balances@, denom)
    }

    /// The fee that a store holds.
    pub open spec fn fee_in(&self, store: MemoryStorage) -> Option<u64> {
        counter_at(storage_entries(store), self.fee_key())
    }

    /// The token count that a store holds.
    pub open spec fn count_in(&self, store: MemoryStorage) -> Option<u64> {
        counter_at(storage_entries(store), self.count_key())
    }

    /// The balance that a store holds for a denomination.
    pub open spec fn balance_in(&self, store: MemoryStorage, denom: Seq<char>) -> Option<u128> {
        amount_at(storage_entries(store), self.balance_key(denom))
    }

    /// What `set_fee` does to the store and what it returns.
    pub open spec fn fee_set(
        &self,
        before: MemoryStorage,
        after: MemoryStorage,
        fee: u64,
        r: Result<u64, ContractError>,
    ) -> bool {
        &&& r matches Ok(w) && w == fee
        &&& storage_entries(after) == storage_entries(before).insert(self.fee_key(), json_u64(fee))
        &&& self.fee_in(after) == Some(fee)
    }

    /// What `increase_balance` does to the store and what it returns.
    pub open spec fn balance_increased(
        &self,
        before: MemoryStorage,
        after: MemoryStorage,
        denom: Seq<char>,
        amount: u128,
        r: Result<u128, ContractError>,
    ) -> bool {
        match self.balance_in(before, denom) {
            None => {
                &&& r matches Err(ContractError::Std(_))
                &&& storage_entries(after) == storage_entries(before)
            },
            Some(v) => if v + amount > u128::MAX {
                &&& r matches Err(ContractError::Overflow)
                &&& storage_entries(after) == storage_entries(before)
            } else {
                &&& r matches Ok(w) && w == v + amount
                &&& storage_entries(after) == storage_entries(before).insert(
                    self.balance_key(denom),
                    json_u128((v + amount) as u128),
                )
                &&& self.balance_in(after, denom) == Some((v + amount) as u128)
            },
        }
    }

    /// What `decrease_balance` does to the store and what it returns.
    pub open spec fn balance_decreased(
        &self,
        before: MemoryStorage,
        after: MemoryStorage,
        denom: Seq<char>,
        amount: u128,
        r: Result<u128, ContractError>,
    ) -> bool {
        match self.balance_in(before, denom) {
            None => {
                &&& r matches Err(ContractError::Std(_))
                &&& storage_entries(after) == storage_entries(before)
            },
            Some(v) => if amount > v {
                &&& r matches Err(ContractError::Underflow)
                &&& storage_entries(after) == storage_entries(before)
            } else {
                &&& r matches Ok(w) && w == v - amount
                &&& storage_entries(after) == storage_entries(before).insert(
                    self.balance_key(denom),
                    json_u128((v - amount) as u128),
                )
                &&& self.balance_in(after, denom) == Some((v - amount) as u128)
            },
        }
    }

    /// What `increment_tokens` does to the store and what it returns.
    pub open spec fn tokens_incremented(
        &self,
        before: MemoryStorage,
        after: MemoryStorage,
        r: Result<u64, ContractError>,
    ) -> bool {
        match self.count_in(before) {
            None => {
                &&& r matches Err(ContractError::Std(_))
                &&& storage_entries(after) == storage_entries(before)
            },
            Some(v) => if v == u64::MAX {
                &&& r matches Err(ContractError::Overflow)
                &&& storage_entries(after) == storage_entries(before)
            } else {
                &&& r matches Ok(w) && w == v + 1
                &&& storage_entries(after) == storage_entries(before).insert(
                    self.count_key(),
                    json_u64((v + 1) as u64),
                )
                &&& self.count_in(after) == Some((v + 1) as u64)
            },
        }
    }

    /// What `decrement_tokens` does to the store and what it returns.
    pub open spec fn tokens_decremented(
        &self,
        before: MemoryStorage,
        after: MemoryStorage,
        r: Result<u64, ContractError>,
    ) -> bool {
        match self.count_in(before) {
            None => {
                &&& r matches Err(ContractError::Std(_))
                &&& storage_entries(after) == storage_entries(before)
            },
            Some(v) => if v == 0 {
                &&& r matches Err(ContractError::Underflow)
                &&& storage_entries(after) == storage_entries(before)
            } else {
                &&& r matches Ok(w) && w == v - 1
                &&& storage_entries(after) == storage_entries(before).insert(
                    self.count_key(),
                    json_u64((v - 1) as u64),
                )
                &&& self.count_in(after) == Some((v - 1) as u64)
            },
        }
    }

    /// Whether the namespaces are apart, as `wf` asks.
    pub fn namespaces_apart(&self) -> (r: bool)
        ensures
            r == self.wf(),
    {
        let info = self.contract_info.as_str();
        let count = self.token_count.as_str();
        let fee = self.fee.as_str();
        let balances = self.balances.as_str();
        let operators = self.operators.as_str();
        let tokens = self.tokens_namespace.as_str();
        let owners = self.tokens_owner_namespace.as_str();
        let ghost items = self.item_names();
        let ghost maps = self.map_names();
        proof {
            assert(items[0] == info@ && items[1] == count@ && items[2] == fee@);
            assert(maps[0] == balances@ && maps[1] == operators@ && maps[2] == tokens@ && maps[3]
                == owners@);
        }
        let fit = balances.as_bytes().len() <= MAX_NAMESPACE_LEN && operators.as_bytes().len()
            <= MAX_NAMESPACE_LEN && tokens.as_bytes().len() <= MAX_NAMESPACE_LEN
            && owners.as_bytes().len() <= MAX_NAMESPACE_LEN;
        if !fit {
            return false;
        }
        let items_differ = !text_eq(info, count) && !text_eq(info, fee) && !text_eq(count, fee);
        let maps_differ = !text_eq(balances, operators) && !text_eq(balances, tokens) && !text_eq(
            balances,
            owners,
        ) && !text_eq(operators, tokens) && !text_eq(operators, owners) && !text_eq(tokens, owners);
        let info_free = !starts_with_prefix(info, balances) && !starts_with_prefix(info, operators)
            && !starts_with_prefix(info, tokens) && !starts_with_prefix(info, owners);
        let count_free = !starts_with_prefix(count, balances) && !starts_with_prefix(
            count,
            operators,
        ) && !starts_with_prefix(count, tokens) && !starts_with_prefix(count, owners);
        let fee_free = !starts_with_prefix(fee, balances) && !starts_with_prefix(fee, operators)
            && !starts_with_prefix(fee, tokens) && !starts_with_prefix(fee, owners);
        proof {
            if !items_differ {
                assert(items[0] == items[1] || items[0] == items[2] || items[1] == items[2]);
            }
            if !maps_differ {
                assert(maps[0] == maps[1] || maps[0] == maps[2] || maps[0] == maps[3] || maps[1]
                    == maps[2] || maps[1] == maps[3] || maps[2] == maps[3]);
            }
            if !info_free {
                assert(exists|m: int|
                    0 <= m < 4 && namespace_prefix(#[trigger] maps[m]).is_prefix_of(
                        item_key(items[0]),
                    ));
            }
            if !count_free {
                assert(exists|m: int|
                    0 <= m < 4 && namespace_prefix(#[trigger] maps[m]).is_prefix_of(
                        item_key(items[1]),
                    ));
            }
            if !fee_free {
                assert(exists|m: int|
                    0 <= m < 4 && namespace_prefix(#[trigger] maps[m]).is_prefix_of(
                        item_key(items[2]),
                    ));
            }
        }
        items_differ && maps_differ && info_free && count_free && fee_free
    }

    fn new(
        contract_key: &str,
        token_count_key: &str,
        fee_key: &str,
        balance_key: &str,
        operator_key: &str,
        tokens_key: &str,
        tokens_owner_key: &str,
    ) -> (r: Self)
        ensures
            r.contract_info@ == contract_key@,
            r.token_count@ == token_count_key@,
            r.fee@ == fee_key@,
            r.balances@ == balance_key@,
            r.operators@ == operator_key@,
            r.tokens_namespace@ == tokens_key@,
            r.tokens_owner_namespace@ == tokens_owner_key@,
            r.tokens.wf(),
            r.tokens.records() == Map::<Seq<char>, TokenInfo<T>>::empty(),
    {
        Self {
            contract_info: String::from_str(contract_key),
            token_count: String::from_str(token_count_key),
            fee: String::from_str(fee_key),
            balances: String::from_str(balance_key),
            operators: String::from_str(operator_key),
            tokens_namespace: String::from_str(tokens_key),
            tokens_owner_namespace: String::from_str(tokens_owner_key),
            tokens: IndexedTokens::new(),
        }
    }

    /// Reads the fee: zero until one is set.
    pub fn get_fee(&self, storage: &MemoryStorage) -> (r: Result<u64, ContractError>)
        ensures
            match self.fee_in(*storage) {
                Some(v) => r matches Ok(w) && w == v,
                None => r matches Err(ContractError::Std(_)),
            },
    {
        match item_may_load(self.fee.as_str(), storage) {
            Ok(Some(v)) => Ok(v),
            Ok(None) => Ok(0),
            Err(e) => Err(ContractError::Std(e)),
        }
    }

    /// Overwrites the fee and returns it.
    pub fn set_fee(&self, storage: &mut MemoryStorage, fee: u64) -> (r: Result<u64, ContractError>)
        ensures
            self.fee_set(*old(storage), *final(storage), fee, r),
    {
        match item_save(self.fee.as_str(), storage, fee) {
            Ok(()) => Ok(fee),
            Err(e) => Err(ContractError::Std(e)),
        }
    }

    /// Reads the token counter: zero until it is first written.
    pub fn token_count(&self, storage: &MemoryStorage) -> (r: Result<u64, ContractError>)
        ensures
            match self.count_in(*storage) {
                Some(v) => r matches Ok(w) && w == v,
                None => r matches Err(ContractError::Std(_)),
            },
    {
        match item_may_load(self.token_count.as_str(), storage) {
            Ok(Some(v)) => Ok(v),
            Ok(None) => Ok(0),
            Err(e) => Err(ContractError::Std(e)),
        }
    }

    /// Reads a denomination's balance: zero until it is first written.
    pub fn get_balance(&self, storage: &MemoryStorage, denom: String) -> (r: Result<
        u128,
        ContractError,
    >)
        requires
            self.ledger_addressable(),
        ensures
            match self.balance_in(*storage, denom@) {
                Some(v) => r matches Ok(w) && w == v,
                None => r matches Err(ContractError::Std(_)),
            },
    {
        match map_may_load(self.balances.as_str(), storage, denom.as_str()) {
            Ok(Some(v)) => Ok(v),
            Ok(None) => Ok(0),
            Err(e) => Err(ContractError::Std(e)),
        }
    }

    /// Adds `amount` to a denomination's balance, stores the sum and returns
    /// it. A sum that does not fit is refused and the store left as it was.
    pub fn increase_balance(&self, storage: &mut MemoryStorage, denom: String, amount: u128) -> (r:
        Result<u128, ContractError>)
        requires
            self.ledger_addressable(),
        ensures
            self.balance_increased(*old(storage), *final(storage), denom@, amount, r),
    {
        let balance = match map_may_load(self.balances.as_str(), storage, denom.as_str()) {
            Ok(Some(v)) => v,
            Ok(None) => 0,
            Err(e) => {
                return Err(ContractError::Std(e));
            },
        };
        match balance.checked_add(amount) {
            None => Err(ContractError::Overflow),
            Some(sum) => match map_save(self.balances.as_str(), storage, denom.as_str(), sum) {
                Ok(()) => Ok(sum),
                Err(e) => Err(ContractError::Std(e)),
            },
        }
    }

    /// Takes `amount` from a denomination's balance, stores the difference and
    /// returns it. An amount larger than the balance is refused and the store
    /// left as it was.
    pub fn decrease_balance(&self, storage: &mut MemoryStorage, denom: String, amount: u128) -> (r:
        Result<u128, ContractError>)
        requires
            self.ledger_addressable(),
        ensures
            self.balance_decreased(*old(storage), *final(storage), denom@, amount, r),
    {
        let balance = match map_may_load(self.balances.as_str(), storage, denom.as_str()) {
            Ok(Some(v)) => v,
            Ok(None) => 0,
            Err(e) => {
                return Err(ContractError::Std(e));
            },
        };
        match balance.checked_sub(amount) {
            None => Err(ContractError::Underflow),
            Some(rest) => match map_save(self.balances.as_str(), storage, denom.as_str(), rest) {
                Ok(()) => Ok(rest),
                Err(e) => Err(ContractError::Std(e)),
            },
        }
    }

    /// Adds one to the token counter, stores it and returns it. At the
    /// largest count the call is refused and the store left as it was.
    pub fn increment_tokens(&self, storage: &mut MemoryStorage) -> (r: Result<u64, ContractError>)
        ensures
            self.tokens_incremented(*old(storage), *final(storage), r),
    {
        let count = self.token_count(storage)?;
        match count.checked_add(1) {
            None => Err(ContractError::Overflow),
            Some(val) => match item_save(self.token_count.as_str(), storage, val) {
                Ok(()) => Ok(val),
                Err(e) => Err(ContractError::Std(e)),
            },
        }
    }

    /// Takes one from the token counter, stores it and returns it. At zero
    /// the call is refused and the store left as it was.
    pub fn decrement_tokens(&self, storage: &mut MemoryStorage) -> (r: Result<u64, ContractError>)
        ensures
            self.tokens_decremented(*old(storage), *final(storage), r),
    {
        let count = self.token_count(storage)?;
        match count.checked_sub(1) {
            None => Err(ContractError::Underflow),
            Some(val) => match item_save(self.token_count.as_str(), storage, val) {
                Ok(()) => Ok(val),
                Err(e) => Err(ContractError::Std(e)),
            },
        }
    }
}

impl<T> Default for Cw721Contract<T> {
    /// The contract under its usual namespaces, which do not collide, and
    /// without tokens.
    fn default() -> (r: Self)
        ensures
            r.wf(),
            r.contract_info@ == "nft_info"@,
            r.token_count@ == "num_tokens"@,
            r.fee@ == "fee"@,
            r.balances@ == "balances"@,
            r.operators@ == "operators"@,
            r.tokens_namespace@ == "tokens"@,
            r.tokens_owner_namespace@ == "tokens__owner"@,
            r.tokens.wf(),
            r.tokens.records() == Map::<Seq<char>, TokenInfo<T>>::empty(),
    {
        let r = Self::new(
            "nft_info",
            "num_tokens",
            "fee",
            "balances",
            "operators",
            "tokens",
            "tokens__owner",
        );
        proof {
            reveal_strlit("nft_info");
            reveal_strlit("num_tokens");
            reveal_strlit("fee");
            reveal_strlit("balances");
            reveal_strlit("operators");
            reveal_strlit("tokens");
            reveal_strlit("tokens__owner");
            is_ascii_chars_encode_utf8(r.contract_info@);
            is_ascii_chars_encode_utf8(r.token_count@);
            is_ascii_chars_encode_utf8(r.fee@);
            is_ascii_chars_encode_utf8(r.balances@);
            is_ascii_chars_encode_utf8(r.operators@);
            is_ascii_chars_encode_utf8(r.tokens_namespace@);
            is_ascii_chars_encode_utf8(r.tokens_owner_namespace@);
            assert forall|i: int, m: int|
                0 <= i < r.item_names().len() && 0 <= m < r.map_names().len()
                    implies !namespace_prefix(#[trigger] r.map_names()[m]).is_prefix_of(
                item_key(#[trigger] r.item_names()[i]),
            ) by {
                let prefix = namespace_prefix(r.map_names()[m]);
                let key = item_key(r.item_names()[i]);
                assert(prefix[0] == 0u8);
                assert(key[0] != 0u8);
                if prefix.is_prefix_of(key) {
                    assert(key.subrange(0, prefix.len() as int)[0] == prefix[0]);
                }
            }
        }
        r
    }
}

} // verus!
