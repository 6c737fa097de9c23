use codedestate::{
    token_owner_idx, Bid, Cw721Contract, IndexedTokens, LongTermRental, Owner, Rental, Sell,
    ShortTermRental, TokenEntry, TokenIndexes, TokenInfo,
};

fn record(chain_type: &str, address: &str, extension: u32) -> TokenInfo<u32> {
    TokenInfo {
        owner: Owner { chain_type: chain_type.to_string(), address: address.to_string() },
        approvals: vec![],
        longterm_rental: LongTermRental { data: vec![1, 2] },
        shortterm_rental: ShortTermRental { data: vec![3] },
        rentals: vec![Rental { data: vec![4, 5, 6] }],
        bids: vec![Bid { data: vec![7] }, Bid { data: vec![] }],
        sell: Sell { data: vec![8] },
        token_uri: Some(format!("ipfs://{}", extension)),
        extension,
    }
}

fn ids(page: &[&TokenEntry<u32>]) -> Vec<String> {
    page.iter().map(|e| e.id.clone()).collect()
}

#[test]
fn new_table_is_empty() {
    let t: IndexedTokens<u32> = IndexedTokens::new();
    assert_eq!(t.len(), 0);
    assert!(t.load("t1").is_none());
    assert!(!t.has_token("t1"));
    assert!(t.query_by_owner("alice", None, 10).is_empty());
}

#[test]
fn load_returns_what_was_saved() {
    let mut t = IndexedTokens::new();
    let r = record("nibiru", "alice", 7);
    t.save("t1", r.clone()).unwrap();
    assert_eq!(t.load("t1"), Some(&r));
    assert!(t.has_token("t1"));
    assert!(t.load("t2").is_none());
    assert_eq!(t.len(), 1);
}

#[test]
fn save_overwrites() {
    let mut t = IndexedTokens::new();
    t.save("t1", record("nibiru", "alice", 1)).unwrap();
    let r = record("nibiru", "alice", 2);
    t.save("t1", r.clone()).unwrap();
    assert_eq!(t.load("t1"), Some(&r));
    assert_eq!(t.len(), 1);
    assert_eq!(ids(&t.query_by_owner("alice", None, 10)), vec!["t1"]);
}

#[test]
fn query_gives_the_owners_tokens_and_no_others() {
    let mut t = IndexedTokens::new();
    t.save("t3", record("nibiru", "alice", 3)).unwrap();
    t.save("t1", record("nibiru", "alice", 1)).unwrap();
    t.save("t2", record("nibiru", "bob", 2)).unwrap();
    t.save("t4", record("eth", "0xabc", 4)).unwrap();
    assert_eq!(ids(&t.query_by_owner("alice", None, 10)), vec!["t1", "t3"]);
    assert_eq!(ids(&t.query_by_owner("bob", None, 10)), vec!["t2"]);
    assert_eq!(ids(&t.query_by_owner("0xabc", None, 10)), vec!["t4"]);
    assert!(t.query_by_owner("carol", None, 10).is_empty());
    assert!(t.query_by_owner("", None, 10).is_empty());
}

#[test]
fn query_gives_each_token_with_its_record() {
    let mut t = IndexedTokens::new();
    t.save("t2", record("nibiru", "alice", 2)).unwrap();
    t.save("t1", record("nibiru", "alice", 1)).unwrap();
    let page = t.query_by_owner("alice", None, 10);
    assert_eq!(page.len(), 2);
    assert_eq!(page[0], &TokenEntry { id: "t1".to_string(), info: record("nibiru", "alice", 1) });
    assert_eq!(page[1], &TokenEntry { id: "t2".to_string(), info: record("nibiru", "alice", 2) });
}

#[test]
fn query_is_ordered_by_the_bytes_of_the_identifier() {
    let mut t = IndexedTokens::new();
    for id in ["token2", "token10", "b", "a", "token1", "Z", "é", ""] {
        t.save(id, record("nibiru", "alice", 0)).unwrap();
    }
    assert_eq!(
        ids(&t.query_by_owner("alice", None, 100)),
        vec!["", "Z", "a", "b", "token1", "token10", "token2", "é"]
    );
}

#[test]
fn query_reads_on_page_by_page() {
    let mut t = IndexedTokens::new();
    for id in ["e", "c", "a", "d", "b"] {
        t.save(id, record("nibiru", "alice", 0)).unwrap();
    }
    t.save("bb", record("nibiru", "bob", 0)).unwrap();
    assert_eq!(ids(&t.query_by_owner("alice", None, 2)), vec!["a", "b"]);
    assert_eq!(ids(&t.query_by_owner("alice", Some("b"), 2)), vec!["c", "d"]);
    assert_eq!(ids(&t.query_by_owner("alice", Some("d"), 2)), vec!["e"]);
    assert!(t.query_by_owner("alice", Some("e"), 2).is_empty());
    assert_eq!(ids(&t.query_by_owner("alice", Some("bb"), 10)), vec!["c", "d", "e"]);
    assert!(t.query_by_owner("alice", None, 0).is_empty());
    assert_eq!(ids(&t.query_by_owner("alice", None, usize::MAX)), vec!["a", "b", "c", "d", "e"]);
}

#[test]
fn saving_under_a_new_owner_moves_the_token_in_the_index() {
    let mut t = IndexedTokens::new();
    t.save("t1", record("nibiru", "alice", 1)).unwrap();
    t.save("t2", record("nibiru", "alice", 2)).unwrap();
    t.save("t1", record("nibiru", "bob", 1)).unwrap();
    assert_eq!(ids(&t.query_by_owner("alice", None, 10)), vec!["t2"]);
    assert_eq!(ids(&t.query_by_owner("bob", None, 10)), vec!["t1"]);
    assert_eq!(t.load("t1"), Some(&record("nibiru", "bob", 1)));
    assert_eq!(t.len(), 2);
}

#[test]
fn the_index_goes_by_the_address_alone() {
    let mut t = IndexedTokens::new();
    t.save("t1", record("eth", "shared", 1)).unwrap();
    t.save("t2", record("nibiru", "shared", 2)).unwrap();
    assert_eq!(ids(&t.query_by_owner("shared", None, 10)), vec!["t1", "t2"]);
    t.save("t1", record("nibiru", "shared", 1)).unwrap();
    assert_eq!(ids(&t.query_by_owner("shared", None, 10)), vec!["t1", "t2"]);
}

#[test]
fn remove_deletes_the_record_and_its_index_entry() {
    let mut t = IndexedTokens::new();
    t.save("t1", record("nibiru", "alice", 1)).unwrap();
    t.save("t2", record("nibiru", "alice", 2)).unwrap();
    t.save("t3", record("nibiru", "bob", 3)).unwrap();
    t.remove("t1").unwrap();
    assert!(t.load("t1").is_none());
    assert_eq!(ids(&t.query_by_owner("alice", None, 10)), vec!["t2"]);
    assert_eq!(ids(&t.query_by_owner("bob", None, 10)), vec!["t3"]);
    assert_eq!(t.len(), 2);
    assert_eq!(t.load("t2"), Some(&record("nibiru", "alice", 2)));
}

#[test]
fn remove_of_an_unknown_token_changes_nothing() {
    let mut t = IndexedTokens::new();
    t.save("t1", record("nibiru", "alice", 1)).unwrap();
    t.remove("t9").unwrap();
    assert_eq!(t.len(), 1);
    assert_eq!(ids(&t.query_by_owner("alice", None, 10)), vec!["t1"]);
}

#[test]
fn a_removed_token_can_be_saved_again() {
    let mut t = IndexedTokens::new();
    t.save("t1", record("nibiru", "alice", 1)).unwrap();
    t.remove("t1").unwrap();
    t.save("t1", record("nibiru", "bob", 5)).unwrap();
    assert!(t.query_by_owner("alice", None, 10).is_empty());
    assert_eq!(ids(&t.query_by_owner("bob", None, 10)), vec!["t1"]);
    assert_eq!(t.load("t1"), Some(&record("nibiru", "bob", 5)));
}

#[test]
fn index_follows_a_long_run_of_writes() {
    let mut t = IndexedTokens::new();
    let owners = ["alice", "bob", "carol"];
    let mut expected: Vec<(String, usize)> = Vec::new();
    for step in 0..60usize {
        let id = format!("t{}", (step * 7) % 11);
        let owner = (step * 5 + step / 3) % 3;
        if step % 4 == 3 {
            t.remove(&id).unwrap();
            expected.retain(|(i, _)| *i != id);
        } else {
            t.save(&id, record("nibiru", owners[owner], step as u32)).unwrap();
            expected.retain(|(i, _)| *i != id);
            expected.push((id, owner));
        }
        for (n, name) in owners.iter().enumerate() {
            let mut want: Vec<String> =
                expected.iter().filter(|(_, o)| *o == n).map(|(i, _)| i.clone()).collect();
            want.sort();
            assert_eq!(ids(&t.query_by_owner(name, None, 100)), want);
        }
        assert_eq!(t.len(), expected.len());
    }
}

#[test]
fn owner_index_key_is_the_owners_address() {
    assert_eq!(token_owner_idx(b"t1", &record("eth", "0xabc", 1)), "0xabc");
    assert_eq!(token_owner_idx(b"", &record("nibiru", "", 1)), "");
}

#[test]
fn index_insert_and_remove() {
    let mut idx = TokenIndexes::new();
    assert_eq!(idx.len(), 0);
    idx.insert("bob".to_string(), "t2".to_string());
    idx.insert("alice".to_string(), "t3".to_string());
    idx.insert("alice".to_string(), "t1".to_string());
    idx.insert("alice".to_string(), "t1".to_string());
    assert_eq!(idx.len(), 3);
    assert!(idx.contains("alice", "t1"));
    assert!(idx.contains("bob", "t2"));
    assert!(!idx.contains("bob", "t1"));
    assert_eq!(idx.ids_of("alice", None, 10), vec!["t1", "t3"]);
    assert_eq!(idx.ids_of("alice", Some("t1"), 10), vec!["t3"]);
    assert_eq!(idx.ids_of("alice", None, 1), vec!["t1"]);
    idx.remove("alice", "t1");
    idx.remove("alice", "t7");
    assert_eq!(idx.len(), 2);
    assert!(!idx.contains("alice", "t1"));
    assert_eq!(idx.ids_of("alice", None, 10), vec!["t3"]);
    assert_eq!(idx.ids_of("bob", None, 10), vec!["t2"]);
}

#[test]
fn the_contract_holds_the_token_table() {
    let mut c: Cw721Contract<u32> = Cw721Contract::default();
    c.tokens.save("t1", record("nibiru", "alice", 1)).unwrap();
    assert_eq!(c.tokens.load("t1"), Some(&record("nibiru", "alice", 1)));
    assert_eq!(ids(&c.tokens.query_by_owner("alice", None, 5)), vec!["t1"]);
}

#[test]
fn the_extension_is_kept_as_it_was_given() {
    let mut t: IndexedTokens<Vec<String>> = IndexedTokens::new();
    let r = TokenInfo {
        owner: Owner { chain_type: "nibiru".to_string(), address: "alice".to_string() },
        approvals: vec![],
        longterm_rental: LongTermRental { data: vec![] },
        shortterm_rental: ShortTermRental { data: vec![] },
        rentals: vec![],
        bids: vec![],
        sell: Sell { data: vec![] },
        token_uri: None,
        extension: vec!["a".to_string(), "b".to_string()],
    };
    t.save("t1", r.clone()).unwrap();
    assert_eq!(t.load("t1"), Some(&r));
}
