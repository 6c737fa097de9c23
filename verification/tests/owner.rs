use codedestate::{ChainOwner, Owner, BRIDGE_WALLET};

fn owner(chain_type: &str, address: &str) -> Owner {
    Owner { chain_type: chain_type.to_string(), address: address.to_string() }
}

#[test]
fn native_owner_is_matched_by_its_own_address() {
    assert!(owner("nibiru", "A").validate_sender("A"));
}

#[test]
fn native_owner_is_not_matched_by_another_address() {
    assert!(!owner("nibiru", "A").validate_sender("B"));
}

#[test]
fn native_owner_is_not_matched_by_the_bridge() {
    assert!(!owner("nibiru", "A").validate_sender(BRIDGE_WALLET));
}

#[test]
fn foreign_owner_is_matched_by_the_bridge() {
    assert!(owner("eth", "0xabc").validate_sender(BRIDGE_WALLET));
}

#[test]
fn foreign_owner_does_not_authorize_itself() {
    assert!(!owner("eth", "0xabc").validate_sender("0xabc"));
}

#[test]
fn chain_type_is_compared_exactly() {
    assert!(!owner("Nibiru", "A").validate_sender("A"));
    assert!(!owner("nibiru ", "A").validate_sender("A"));
    assert!(owner("", "A").validate_sender(BRIDGE_WALLET));
}

#[test]
fn bridge_address_is_the_fixed_constant() {
    assert_eq!(BRIDGE_WALLET, "nibiru_bridge_address");
}

#[test]
fn native_owner_whose_address_is_the_bridge() {
    assert!(owner("nibiru", BRIDGE_WALLET).validate_sender(BRIDGE_WALLET));
}

#[test]
fn addresses_outside_ascii_are_compared_by_their_text() {
    assert!(owner("nibiru", "адрес").validate_sender("адрес"));
    assert!(!owner("nibiru", "адрес").validate_sender("адреc"));
}

#[test]
fn chain_owner_holds_its_fields() {
    let o = ChainOwner { chain_type: "eth".to_string(), address: "0xabc".to_string() };
    assert_eq!(o.clone(), o);
    assert_eq!(o.chain_type, "eth");
    assert_eq!(o.address, "0xabc");
}
