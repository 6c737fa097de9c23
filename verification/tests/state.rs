use codedestate::state::starts_with_prefix;
use codedestate::{ContractError, Cw721Contract};
use cosmwasm_std::{MemoryStorage, Storage};

fn contract() -> Cw721Contract<u32> {
    Cw721Contract::default()
}

#[test]
fn default_namespaces() {
    let c = contract();
    assert_eq!(c.contract_info, "nft_info");
    assert_eq!(c.token_count, "num_tokens");
    assert_eq!(c.fee, "fee");
    assert_eq!(c.balances, "balances");
    assert_eq!(c.operators, "operators");
    assert_eq!(c.tokens_namespace, "tokens");
    assert_eq!(c.tokens_owner_namespace, "tokens__owner");
    assert_eq!(c.tokens.len(), 0);
}

#[test]
fn fee_is_zero_before_it_is_set() {
    let store = MemoryStorage::new();
    assert_eq!(contract().get_fee(&store).unwrap(), 0);
}

#[test]
fn fee_is_what_was_set() {
    let c = contract();
    let mut store = MemoryStorage::new();
    assert_eq!(c.set_fee(&mut store, 250).unwrap(), 250);
    assert_eq!(c.get_fee(&store).unwrap(), 250);
    assert_eq!(c.set_fee(&mut store, 7).unwrap(), 7);
    assert_eq!(c.get_fee(&store).unwrap(), 7);
    assert_eq!(c.set_fee(&mut store, 0).unwrap(), 0);
    assert_eq!(c.get_fee(&store).unwrap(), 0);
    assert_eq!(c.set_fee(&mut store, u64::MAX).unwrap(), u64::MAX);
    assert_eq!(c.get_fee(&store).unwrap(), u64::MAX);
}

#[test]
fn fee_is_stored_as_decimal_digits_under_its_namespace() {
    let c = contract();
    let mut store = MemoryStorage::new();
    c.set_fee(&mut store, 42).unwrap();
    assert_eq!(store.get(b"fee"), Some(b"42".to_vec()));
    c.set_fee(&mut store, 0).unwrap();
    assert_eq!(store.get(b"fee"), Some(b"0".to_vec()));
    c.set_fee(&mut store, u64::MAX).unwrap();
    assert_eq!(store.get(b"fee"), Some(b"18446744073709551615".to_vec()));
}

#[test]
fn fee_and_count_do_not_touch_each_other() {
    let c = contract();
    let mut store = MemoryStorage::new();
    c.set_fee(&mut store, 9).unwrap();
    assert_eq!(c.token_count(&store).unwrap(), 0);
    c.increment_tokens(&mut store).unwrap();
    assert_eq!(c.get_fee(&store).unwrap(), 9);
    assert_eq!(c.get_balance(&store, "unibi".to_string()).unwrap(), 0);
}

#[test]
fn unreadable_fee_is_an_error() {
    let c = contract();
    let mut store = MemoryStorage::new();
    store.set(b"fee", b"not a number");
    assert!(matches!(c.get_fee(&store), Err(ContractError::Std(_))));
    assert_eq!(c.set_fee(&mut store, 3).unwrap(), 3);
    assert_eq!(c.get_fee(&store).unwrap(), 3);
}

#[test]
fn token_count_is_zero_at_first() {
    let store = MemoryStorage::new();
    assert_eq!(contract().token_count(&store).unwrap(), 0);
}

#[test]
fn increments_count_up_from_zero() {
    let c = contract();
    let mut store = MemoryStorage::new();
    for n in 1..=25u64 {
        assert_eq!(c.increment_tokens(&mut store).unwrap(), n);
        assert_eq!(c.token_count(&store).unwrap(), n);
    }
    assert_eq!(store.get(b"num_tokens"), Some(b"25".to_vec()));
}

#[test]
fn decrement_takes_one() {
    let c = contract();
    let mut store = MemoryStorage::new();
    c.increment_tokens(&mut store).unwrap();
    c.increment_tokens(&mut store).unwrap();
    assert_eq!(c.decrement_tokens(&mut store).unwrap(), 1);
    assert_eq!(c.token_count(&store).unwrap(), 1);
    assert_eq!(c.decrement_tokens(&mut store).unwrap(), 0);
    assert_eq!(c.token_count(&store).unwrap(), 0);
}

#[test]
fn decrement_at_zero_is_refused() {
    let c = contract();
    let mut store = MemoryStorage::new();
    assert!(matches!(c.decrement_tokens(&mut store), Err(ContractError::Underflow)));
    assert_eq!(store.get(b"num_tokens"), None);
    assert_eq!(c.token_count(&store).unwrap(), 0);
    c.increment_tokens(&mut store).unwrap();
    c.decrement_tokens(&mut store).unwrap();
    assert!(matches!(c.decrement_tokens(&mut store), Err(ContractError::Underflow)));
    assert_eq!(store.get(b"num_tokens"), Some(b"0".to_vec()));
}

#[test]
fn increment_at_the_largest_count_is_refused() {
    let c = contract();
    let mut store = MemoryStorage::new();
    store.set(b"num_tokens", b"18446744073709551614");
    assert_eq!(c.increment_tokens(&mut store).unwrap(), u64::MAX);
    assert!(matches!(c.increment_tokens(&mut store), Err(ContractError::Overflow)));
    assert_eq!(c.token_count(&store).unwrap(), u64::MAX);
}

#[test]
fn unreadable_count_is_an_error_and_stays() {
    let c = contract();
    let mut store = MemoryStorage::new();
    store.set(b"num_tokens", b"\"12\"");
    assert!(matches!(c.token_count(&store), Err(ContractError::Std(_))));
    assert!(matches!(c.increment_tokens(&mut store), Err(ContractError::Std(_))));
    assert!(matches!(c.decrement_tokens(&mut store), Err(ContractError::Std(_))));
    assert_eq!(store.get(b"num_tokens"), Some(b"\"12\"".to_vec()));
}

#[test]
fn balance_is_zero_at_first() {
    let store = MemoryStorage::new();
    assert_eq!(contract().get_balance(&store, "unibi".to_string()).unwrap(), 0);
}

#[test]
fn increase_adds_and_stores() {
    let c = contract();
    let mut store = MemoryStorage::new();
    assert_eq!(c.increase_balance(&mut store, "unibi".to_string(), 100).unwrap(), 100);
    assert_eq!(c.increase_balance(&mut store, "unibi".to_string(), 23).unwrap(), 123);
    assert_eq!(c.get_balance(&store, "unibi".to_string()).unwrap(), 123);
    assert_eq!(c.get_balance(&store, "uusd".to_string()).unwrap(), 0);
}

#[test]
fn decrease_takes_and_stores() {
    let c = contract();
    let mut store = MemoryStorage::new();
    c.increase_balance(&mut store, "unibi".to_string(), 100).unwrap();
    assert_eq!(c.decrease_balance(&mut store, "unibi".to_string(), 30).unwrap(), 70);
    assert_eq!(c.get_balance(&store, "unibi".to_string()).unwrap(), 70);
    assert_eq!(c.decrease_balance(&mut store, "unibi".to_string(), 70).unwrap(), 0);
    assert_eq!(c.get_balance(&store, "unibi".to_string()).unwrap(), 0);
}

#[test]
fn increase_then_decrease_restores_the_balance() {
    let c = contract();
    let mut store = MemoryStorage::new();
    c.increase_balance(&mut store, "unibi".to_string(), 555).unwrap();
    for amount in [0u128, 1, 999, u128::MAX - 555] {
        let before = c.get_balance(&store, "unibi".to_string()).unwrap();
        c.increase_balance(&mut store, "unibi".to_string(), amount).unwrap();
        c.decrease_balance(&mut store, "unibi".to_string(), amount).unwrap();
        assert_eq!(c.get_balance(&store, "unibi".to_string()).unwrap(), before);
    }
}

#[test]
fn decrease_below_zero_is_refused() {
    let c = contract();
    let mut store = MemoryStorage::new();
    assert!(matches!(
        c.decrease_balance(&mut store, "unibi".to_string(), 1),
        Err(ContractError::Underflow)
    ));
    c.increase_balance(&mut store, "unibi".to_string(), 5).unwrap();
    assert!(matches!(
        c.decrease_balance(&mut store, "unibi".to_string(), 6),
        Err(ContractError::Underflow)
    ));
    assert_eq!(c.get_balance(&store, "unibi".to_string()).unwrap(), 5);
}

#[test]
fn increase_past_the_largest_amount_is_refused() {
    let c = contract();
    let mut store = MemoryStorage::new();
    c.increase_balance(&mut store, "unibi".to_string(), u128::MAX).unwrap();
    assert!(matches!(
        c.increase_balance(&mut store, "unibi".to_string(), 1),
        Err(ContractError::Overflow)
    ));
    assert_eq!(c.get_balance(&store, "unibi".to_string()).unwrap(), u128::MAX);
}

#[test]
fn balances_are_stored_as_quoted_digits_under_prefixed_keys() {
    let c = contract();
    let mut store = MemoryStorage::new();
    c.increase_balance(&mut store, "unibi".to_string(), 100).unwrap();
    assert_eq!(store.get(b"\x00\x08balancesunibi"), Some(b"\"100\"".to_vec()));
    c.increase_balance(&mut store, "".to_string(), 1).unwrap();
    assert_eq!(store.get(b"\x00\x08balances"), Some(b"\"1\"".to_vec()));
    c.increase_balance(&mut store, "é".to_string(), u128::MAX).unwrap();
    assert_eq!(
        store.get("\u{0}\u{8}balancesé".as_bytes()),
        Some(b"\"340282366920938463463374607431768211455\"".to_vec())
    );
}

#[test]
fn balances_of_two_denominations_are_apart() {
    let c = contract();
    let mut store = MemoryStorage::new();
    c.increase_balance(&mut store, "a".to_string(), 1).unwrap();
    c.increase_balance(&mut store, "ab".to_string(), 2).unwrap();
    c.increase_balance(&mut store, "b".to_string(), 3).unwrap();
    c.decrease_balance(&mut store, "ab".to_string(), 2).unwrap();
    assert_eq!(c.get_balance(&store, "a".to_string()).unwrap(), 1);
    assert_eq!(c.get_balance(&store, "ab".to_string()).unwrap(), 0);
    assert_eq!(c.get_balance(&store, "b".to_string()).unwrap(), 3);
    assert_eq!(c.get_fee(&store).unwrap(), 0);
    assert_eq!(c.token_count(&store).unwrap(), 0);
}

#[test]
fn unreadable_balance_is_an_error_and_stays() {
    let c = contract();
    let mut store = MemoryStorage::new();
    store.set(b"\x00\x08balancesunibi", b"100");
    assert!(matches!(c.get_balance(&store, "unibi".to_string()), Err(ContractError::Std(_))));
    assert!(matches!(
        c.increase_balance(&mut store, "unibi".to_string(), 1),
        Err(ContractError::Std(_))
    ));
    assert!(matches!(
        c.decrease_balance(&mut store, "unibi".to_string(), 1),
        Err(ContractError::Std(_))
    ));
    assert_eq!(store.get(b"\x00\x08balancesunibi"), Some(b"100".to_vec()));
}

#[test]
fn default_namespaces_are_apart() {
    assert!(contract().namespaces_apart());
}

#[test]
fn equal_namespaces_are_not_apart() {
    let mut c = contract();
    c.fee = "num_tokens".to_string();
    assert!(!c.namespaces_apart());
    let mut c = contract();
    c.contract_info = "fee".to_string();
    assert!(!c.namespaces_apart());
    let mut c = contract();
    c.operators = "balances".to_string();
    assert!(!c.namespaces_apart());
    let mut c = contract();
    c.tokens_owner_namespace = "tokens".to_string();
    assert!(!c.namespaces_apart());
}

#[test]
fn an_item_inside_a_map_is_not_apart() {
    let mut c = contract();
    c.fee = "\u{0}\u{8}balancesunibi".to_string();
    assert!(!c.namespaces_apart());
    let mut c = contract();
    c.token_count = "\u{0}\u{6}tokens".to_string();
    assert!(!c.namespaces_apart());
    let mut c = contract();
    c.fee = "\u{0}\u{8}balance".to_string();
    assert!(c.namespaces_apart());
    let mut c = contract();
    c.fee = "\u{0}\u{7}balances".to_string();
    assert!(c.namespaces_apart());
}

#[test]
fn an_item_and_a_map_may_share_a_name() {
    let mut c = contract();
    c.fee = "balances".to_string();
    assert!(c.namespaces_apart());
    let mut store = MemoryStorage::new();
    c.set_fee(&mut store, 5).unwrap();
    c.increase_balance(&mut store, "".to_string(), 9).unwrap();
    assert_eq!(c.get_fee(&store).unwrap(), 5);
    assert_eq!(c.get_balance(&store, "".to_string()).unwrap(), 9);
}

#[test]
fn a_namespace_too_long_for_a_map_is_not_apart() {
    let mut c = contract();
    c.operators = "o".repeat(65536);
    assert!(!c.namespaces_apart());
    let mut c = contract();
    c.operators = "o".repeat(65535);
    assert!(c.namespaces_apart());
}

#[test]
fn starts_with_prefix_reads_the_length_and_the_name() {
    assert!(starts_with_prefix("\u{0}\u{1}a", "a"));
    assert!(starts_with_prefix("\u{0}\u{1}ab", "a"));
    assert!(starts_with_prefix("\u{0}\u{0}", ""));
    assert!(starts_with_prefix("\u{0}\u{0}x", ""));
    assert!(!starts_with_prefix("\u{0}\u{1}b", "a"));
    assert!(!starts_with_prefix("\u{0}\u{2}a", "a"));
    assert!(!starts_with_prefix("\u{0}", ""));
    assert!(!starts_with_prefix("", ""));
    assert!(!starts_with_prefix("a", "a"));
}
