//! The persistent store and the typed accessors that read and write it.
//!
//! The store is `cosmwasm_std::MemoryStorage`, an ordered map from byte keys to
//! byte values. Values go through `cw_storage_plus`, which derives the key from
//! a namespace and writes the value as JSON. Nothing in this file is proved:
//! each contract below restates what the outside code does.

use vstd::prelude::*;
use vstd::utf8::*;
use cosmwasm_std::{MemoryStorage, StdError, Uint128};
use cw_storage_plus::Item;

verus! {

/// `cosmwasm_std::MemoryStorage`, carried as an opaque value.
#[verifier::external_type_specification]
#[verifier::external_body]
pub struct ExMemoryStorage(MemoryStorage);

/// `cosmwasm_std::StdError`, carried as an opaque value.
#[verifier::external_type_specification]
#[verifier::external_body]
pub struct ExStdError(StdError);

/// What a store holds: the value bytes under each key.
pub uninterp spec fn storage_entries(store: MemoryStorage) -> Map<Seq<u8>, Seq<u8>>;

/// What `cosmwasm_std::from_slice::<u64>` reads from the bytes, `None` where
/// it reports an error.
pub uninterp spec fn parsed_u64(bytes: Seq<u8>) -> Option<u64>;

/// What `cosmwasm_std::from_slice::<Uint128>` reads from the bytes, as the
/// number it stands for, `None` where it reports an error.
pub uninterp spec fn parsed_u128(bytes: Seq<u8>) -> Option<u128>;

/// The key of a single item: the namespace's own bytes.
pub open spec fn item_key(namespace: Seq<char>) -> Seq<u8> {
    encode_utf8(namespace)
}

/// The longest namespace, in bytes, whose length a map's keys can carry.
pub const MAX_NAMESPACE_LEN: usize = 0xFFFF;

/// What starts every key of a map: the namespace's length as two bytes, high
/// byte first, then the namespace.
pub open spec fn namespace_prefix(namespace: Seq<char>) -> Seq<u8> {
    let name = encode_utf8(namespace);
    seq![(name.len() / 256) as u8, (name.len() % 256) as u8] + name
}

/// The key of a map's entry: the namespace's prefix, then the entry's own key.
pub open spec fn entry_key(namespace: Seq<char>, key: Seq<char>) -> Seq<u8> {
    namespace_prefix(namespace) + encode_utf8(key)
}

/// A number in decimal digits, without leading zeros.
pub open spec fn decimal_digits(n: nat) -> Seq<u8>
    decreases n,
{
    if n < 10 {
        seq![(48 + n) as u8]
    } else {
        decimal_digits(n / 10).push((48 + n % 10) as u8)
    }
}

/// The JSON text of a counter: its decimal digits.
pub open spec fn json_u64(value: u64) -> Seq<u8> {
    decimal_digits(value as nat)
}

/// The JSON text of an amount: its decimal digits between double quotes.
pub open spec fn json_u128(value: u128) -> Seq<u8> {
    seq![34u8] + decimal_digits(value as nat) + seq![34u8]
}

/// `cw_storage_plus::Item::<u64>::may_load` on the item of this namespace.
/// It looks up the namespace's bytes; an absent key gives `Ok(None)`, a
/// present one is parsed as JSON, and a value that does not parse is an error.
#[verifier::external_body]
pub(crate) fn item_may_load(namespace: &str, store: &MemoryStorage) -> (r: Result<
    Option<u64>,
    StdError,
>)
    ensures
        !storage_entries(*store).contains_key(item_key(namespace@)) ==> r matches Ok(None),
        storage_entries(*store).contains_key(item_key(namespace@)) ==> match parsed_u64(
            storage_entries(*store)[item_key(namespace@)],
        ) {
            Some(v) => r matches Ok(Some(w)) && w == v,
            None => r is Err,
        },
{
    Item::<u64>::new(namespace).may_load(store)
}

/// `cw_storage_plus::Item::<u64>::save` on the item of this namespace.
/// A `u64` always serializes, to its decimal digits, so the call succeeds and
/// puts those bytes under the namespace's key; every other key keeps its
/// value. Reading the bytes back gives the number that was written.
#[verifier::external_body]
pub(crate) fn item_save(namespace: &str, store: &mut MemoryStorage, value: u64) -> (r: Result<
    (),
    StdError,
>)
    ensures
        r is Ok,
        storage_entries(*final(store)) == storage_entries(*old(store)).insert(
            item_key(namespace@),
            json_u64(value),
        ),
        parsed_u64(storage_entries(*final(store))[item_key(namespace@)]) == Some(value),
{
    Item::<u64>::new(namespace).save(store, &value)
}

/// `cw_storage_plus::Map::<&str, Uint128>::may_load` on the map of this
/// namespace. It looks up the entry's key; an absent key gives `Ok(None)`, a
/// present one is parsed as JSON, and a value that does not parse is an error.
/// The map panics on a namespace longer than `MAX_NAMESPACE_LEN` bytes.
#[verifier::external_body]
pub(crate) fn map_may_load(namespace: &str, store: &MemoryStorage, key: &str) -> (r: Result<
    Option<u128>,
    StdError,
>)
    requires
        encode_utf8(namespace@).len() <= MAX_NAMESPACE_LEN,
    ensures
        !storage_entries(*store).contains_key(entry_key(namespace@, key@)) ==> r matches Ok(None),
        storage_entries(*store).contains_key(entry_key(namespace@, key@)) ==> match parsed_u128(
            storage_entries(*store)[entry_key(namespace@, key@)],
        ) {
            Some(v) => r matches Ok(Some(w)) && w == v,
            None => r is Err,
        },
{
    match cw_storage_plus::Map::<&str, Uint128>::new(namespace).may_load(store, key) {
        Ok(Some(amount)) => Ok(Some(amount.u128())),
        Ok(None) => Ok(None),
        Err(e) => Err(e),
    }
}

/// `cw_storage_plus::Map::<&str, Uint128>::save` on the map of this
/// namespace. A `Uint128` always serializes, to its decimal digits in quotes,
/// so the call succeeds and puts those bytes under the entry's key; every
/// other key keeps its value. Reading the bytes back gives the amount that was
/// written. The map panics on a namespace longer than `MAX_NAMESPACE_LEN`
/// bytes.
#[verifier::external_body]
pub(crate) fn map_save(namespace: &str, store: &mut MemoryStorage, key: &str, value: u128) -> (r:
    Result<(), StdError>)
    requires
        encode_utf8(namespace@).len() <= MAX_NAMESPACE_LEN,
    ensures
        r is Ok,
        storage_entries(*final(store)) == storage_entries(*old(store)).insert(
            entry_key(namespace@, key@),
            json_u128(value),
        ),
        parsed_u128(storage_entries(*final(store))[entry_key(namespace@, key@)]) == Some(value),
{
    cw_storage_plus::Map::<&str, Uint128>::new(namespace).save(store, key, &Uint128::new(value))
}

} // verus!
