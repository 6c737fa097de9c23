//! What holds of the state layer across calls, stated over the same relations
//! and views as the contracts of its operations.

use vstd::prelude::*;
use vstd::utf8::*;
use cosmwasm_std::MemoryStorage;
use crate::error::ContractError;
use crate::index::is_page_of;
use crate::state::Cw721Contract;
use crate::storage::{item_key, namespace_prefix, storage_entries};
use crate::text::{
    lemma_bytes_of_injective, lemma_text_precedes_connected, lemma_text_precedes_irreflexive,
    lemma_text_precedes_transitive, text_precedes,
};
use crate::tokens::{IndexedTokens, TokenInfo};

verus! {

/// A record that was saved is the record that is loaded: after a save the
/// table holds, under the identifier, the record as it was handed in.
pub proof fn lemma_load_after_save<T>(
    before: IndexedTokens<T>,
    after: IndexedTokens<T>,
    id: Seq<char>,
    info: TokenInfo<T>,
)
    requires
        after.records() == before.records().insert(id, info),
    ensures
        after.records().contains_key(id),
        after.records()[id] == info,
        forall|other: Seq<char>|
            other != id ==> after.records().contains_key(other) == before.records().contains_key(
                other,
            ),
        forall|other: Seq<char>|
            other != id && before.records().contains_key(other) ==> after.records()[other]
                == before.records()[other],
{
}

/// The index is consistent with the records: under each owner it files
/// exactly the tokens whose record names that owner.
pub proof fn lemma_index_consistent<T>(table: IndexedTokens<T>, owner: Seq<char>)
    requires
        table.wf(),
    ensures
        table.indexed_ids(owner) == table.owned_ids(owner),
{
    assert(table.indexed_ids(owner) =~= table.owned_ids(owner));
}

/// A page that is not full holds all there is: an owner's tokens read from
/// the start, with room to spare, are exactly the tokens whose record names
/// the owner.
pub proof fn lemma_page_not_full_is_all(members: Set<Seq<char>>, limit: nat, page: Seq<Seq<char>>)
    requires
        is_page_of(members, limit, page),
        page.len() < limit,
    ensures
        page.to_set() == members,
{
    assert forall|id: Seq<char>| page.to_set().contains(id) <==> members.contains(id) by {
        if page.to_set().contains(id) {
            let i = choose|i: int| 0 <= i < page.len() && page[i] == id;
            assert(members.contains(page[i]));
        }
    }
    assert(page.to_set() =~= members);
}

/// What a query by owner returns follows the records: a page read from the
/// start that is not full holds exactly the tokens whose record names the
/// owner, no more and no fewer.
pub proof fn lemma_query_is_exact<T>(
    table: IndexedTokens<T>,
    owner: Seq<char>,
    limit: nat,
    page: Seq<Seq<char>>,
)
    requires
        table.wf(),
        is_page_of(table.owned_after(owner, None), limit, page),
        page.len() < limit,
    ensures
        page.to_set() == table.owned_ids(owner),
        page.to_set() == table.indexed_ids(owner),
{
    lemma_page_not_full_is_all(table.owned_after(owner, None), limit, page);
    assert(table.owned_after(owner, None) =~= table.owned_ids(owner));
    lemma_index_consistent(table, owner);
}

/// Two pages cut from the same identifiers with the same limit agree on
/// their first `n` places.
proof fn lemma_pages_agree_up_to(
    members: Set<Seq<char>>,
    limit: nat,
    one: Seq<Seq<char>>,
    other: Seq<Seq<char>>,
    n: int,
)
    requires
        is_page_of(members, limit, one),
        is_page_of(members, limit, other),
        0 <= n <= one.len(),
        n <= other.len(),
    ensures
        forall|i: int| 0 <= i < n ==> one[i] == other[i],
    decreases n,
{
    if n > 0 {
        lemma_pages_agree_up_to(members, limit, one, other, n - 1);
        let a = one[n - 1];
        let b = other[n - 1];
        if a != b {
            lemma_text_precedes_connected(a, b);
            if text_precedes(a, b) {
                lemma_page_lacks_smaller(members, limit, other, one, n - 1);
                lemma_text_precedes_transitive(a, b, a);
            } else {
                lemma_page_lacks_smaller(members, limit, one, other, n - 1);
                lemma_text_precedes_transitive(b, a, b);
            }
            lemma_text_precedes_irreflexive(a);
            lemma_text_precedes_irreflexive(b);
        }
    }
}

/// Where two pages agree before place `k` and `other` has the smaller
/// identifier at `k`, `page` does not hold that identifier, so it comes
/// behind all of `page`.
proof fn lemma_page_lacks_smaller(
    members: Set<Seq<char>>,
    limit: nat,
    page: Seq<Seq<char>>,
    other: Seq<Seq<char>>,
    k: int,
)
    requires
        is_page_of(members, limit, page),
        is_page_of(members, limit, other),
        0 <= k < page.len(),
        k < other.len(),
        forall|i: int| 0 <= i < k ==> page[i] == other[i],
        text_precedes(other[k], page[k]),
    ensures
        text_precedes(page[k], other[k]),
{
    let id = other[k];
    assert(members.contains(id));
    if page.contains(id) {
        let j = choose|j: int| 0 <= j < page.len() && page[j] == id;
        lemma_text_precedes_irreflexive(id);
        if j < k {
            assert(text_precedes(other[j], other[k]));
        } else if j > k {
            assert(text_precedes(page[k], page[j]));
            lemma_text_precedes_transitive(id, page[k], id);
        }
    }
}

/// The page is determined: the identifiers to cut from and the limit admit
/// one page and no other.
pub proof fn lemma_page_unique(
    members: Set<Seq<char>>,
    limit: nat,
    one: Seq<Seq<char>>,
    other: Seq<Seq<char>>,
)
    requires
        is_page_of(members, limit, one),
        is_page_of(members, limit, other),
    ensures
        one == other,
{
    let n = if one.len() <= other.len() { one.len() as int } else { other.len() as int };
    lemma_pages_agree_up_to(members, limit, one, other, n);
    if one.len() <= other.len() {
        lemma_page_is_no_proper_start(members, limit, one, other);
    } else {
        lemma_page_is_no_proper_start(members, limit, other, one);
    }
    assert(one =~= other);
}

/// A page that is the start of another page of the same kind is as long.
proof fn lemma_page_is_no_proper_start(
    members: Set<Seq<char>>,
    limit: nat,
    short: Seq<Seq<char>>,
    long: Seq<Seq<char>>,
)
    requires
        is_page_of(members, limit, short),
        is_page_of(members, limit, long),
        short.len() <= long.len(),
        forall|i: int| 0 <= i < short.len() ==> short[i] == long[i],
    ensures
        short.len() == long.len(),
{
    if short.len() < long.len() {
        let id = long[short.len() as int];
        assert(members.contains(id));
        if short.contains(id) {
            let j = choose|j: int| 0 <= j < short.len() && short[j] == id;
            assert(text_precedes(long[j], long[short.len() as int]));
            lemma_text_precedes_irreflexive(id);
        }
    }
}

/// Reading on: a page followed by the page of what lies behind its last
/// identifier is the page of both limits together.
pub proof fn lemma_pages_join(
    members: Set<Seq<char>>,
    first_limit: nat,
    first: Seq<Seq<char>>,
    next_limit: nat,
    next: Seq<Seq<char>>,
)
    requires
        is_page_of(members, first_limit, first),
        first.len() > 0,
        is_page_of(
            members.filter(|id: Seq<char>| text_precedes(first.last(), id)),
            next_limit,
            next,
        ),
    ensures
        is_page_of(members, first_limit + next_limit, first + next),
{
    let last = first.last();
    let rest = members.filter(|id: Seq<char>| text_precedes(last, id));
    let joined = first + next;
    let n = first.len() as int;
    assert forall|i: int| 0 <= i < joined.len() implies members.contains(#[trigger] joined[i]) by {
        if i >= n {
            assert(rest.contains(next[i - n]));
        }
    }
    assert forall|i: int, j: int| 0 <= i < j < joined.len() implies text_precedes(
        #[trigger] joined[i],
        #[trigger] joined[j],
    ) by {
        if j < n {
            assert(text_precedes(first[i], first[j]));
        } else if i >= n {
            assert(text_precedes(next[i - n], next[j - n]));
        } else {
            assert(rest.contains(next[j - n]));
            if i < n - 1 {
                assert(text_precedes(first[i], first[n - 1]));
                lemma_text_precedes_transitive(first[i], last, next[j - n]);
            }
        }
    }
    assert forall|id: Seq<char>| #[trigger]
        members.contains(id) && !joined.contains(id) implies joined.len() == first_limit
        + next_limit && (forall|i: int|
        0 <= i < joined.len() ==> text_precedes(#[trigger] joined[i], id)) by {
        if first.contains(id) {
            let i = choose|i: int| 0 <= i < first.len() && first[i] == id;
            assert(joined[i] == id);
        }
        assert(text_precedes(first[n - 1], id));
        assert(rest.contains(id));
        if next.contains(id) {
            let j = choose|j: int| 0 <= j < next.len() && next[j] == id;
            assert(joined[j + n] == id);
        }
        assert forall|i: int| 0 <= i < joined.len() implies text_precedes(
            #[trigger] joined[i],
            id,
        ) by {
            if i < n {
                assert(text_precedes(first[i], id));
            } else {
                assert(text_precedes(next[i - n], id));
            }
        }
    }
}

/// A query can be read on page by page: a page of an owner's tokens, followed
/// by the page that starts behind its last identifier, is what one query
/// with both limits together returns.
pub proof fn lemma_query_reads_on<T>(
    table: IndexedTokens<T>,
    owner: Seq<char>,
    start: Option<Seq<char>>,
    first_limit: nat,
    first: Seq<Seq<char>>,
    next_limit: nat,
    next: Seq<Seq<char>>,
)
    requires
        is_page_of(table.owned_after(owner, start), first_limit, first),
        first.len() > 0,
        is_page_of(table.owned_after(owner, Some(first.last())), next_limit, next),
    ensures
        is_page_of(table.owned_after(owner, start), first_limit + next_limit, first + next),
{
    let members = table.owned_after(owner, start);
    let last = first.last();
    assert(members.contains(first[first.len() - 1]));
    assert forall|id: Seq<char>|
        table.owned_after(owner, Some(last)).contains(id) <==> members.filter(
            |id: Seq<char>| text_precedes(last, id),
        ).contains(id) by {
        if table.owned_ids(owner).contains(id) && text_precedes(last, id) {
            if let Some(s) = start {
                lemma_text_precedes_transitive(s, last, id);
            }
        }
    }
    assert(table.owned_after(owner, Some(last)) =~= members.filter(
        |id: Seq<char>| text_precedes(last, id),
    ));
    lemma_pages_join(members, first_limit, first, next_limit, next);
}

/// Saving a token under a new owner moves it in the index: the old owner no
/// longer has it, the new owner has it, and no other token moves.
pub proof fn lemma_index_migration<T>(
    before: IndexedTokens<T>,
    after: IndexedTokens<T>,
    id: Seq<char>,
    info: TokenInfo<T>,
)
    requires
        before.wf(),
        after.wf(),
        before.records().contains_key(id),
        before.records()[id].owner.address@ != info.owner.address@,
        after.records() == before.records().insert(id, info),
    ensures
        before.indexed_ids(before.records()[id].owner.address@).contains(id),
        !after.indexed_ids(before.records()[id].owner.address@).contains(id),
        after.indexed_ids(info.owner.address@).contains(id),
        forall|owner: Seq<char>, other: Seq<char>|
            other != id ==> after.indexed_ids(owner).contains(other) == before.indexed_ids(
                owner,
            ).contains(other),
{
}

/// A token that is removed leaves the index, and no other token moves.
pub proof fn lemma_index_after_remove<T>(
    before: IndexedTokens<T>,
    after: IndexedTokens<T>,
    id: Seq<char>,
)
    requires
        before.wf(),
        after.wf(),
        after.records() == before.records().remove(id),
    ensures
        forall|owner: Seq<char>| !after.indexed_ids(owner).contains(id),
        forall|owner: Seq<char>, other: Seq<char>|
            other != id ==> after.indexed_ids(owner).contains(other) == before.indexed_ids(
                owner,
            ).contains(other),
{
}

/// The keys of a contract whose namespaces are apart are apart: the fee, the
/// token counter and each denomination's balance have a key of their own.
pub proof fn lemma_keys_apart<T>(contract: Cw721Contract<T>, denom: Seq<char>, other: Seq<char>)
    requires
        contract.wf(),
    ensures
        contract.fee_key() != contract.count_key(),
        contract.balance_key(denom) != contract.fee_key(),
        contract.balance_key(denom) != contract.count_key(),
        denom != other ==> contract.balance_key(denom) != contract.balance_key(other),
{
    let items = contract.item_names();
    let maps = contract.map_names();
    assert(items[1] == contract.token_count@ && items[2] == contract.fee@);
    assert(maps[0] == contract.balances@);
    if contract.fee_key() == contract.count_key() {
        lemma_bytes_of_injective(contract.fee@, contract.token_count@);
    }
    let prefix = namespace_prefix(contract.balances@);
    assert(prefix.is_prefix_of(contract.balance_key(denom)));
    assert(!prefix.is_prefix_of(item_key(items[1])));
    assert(!prefix.is_prefix_of(item_key(items[2])));
    if contract.balance_key(denom) == contract.balance_key(other) {
        let a = encode_utf8(denom);
        let b = encode_utf8(other);
        assert(a =~= (prefix + a).skip(prefix.len() as int));
        assert(b =~= (prefix + b).skip(prefix.len() as int));
        lemma_bytes_of_injective(denom, other);
    }
}

/// The fee is zero until one is set: a store without the fee's key holds
/// the fee zero.
pub proof fn lemma_fee_default<T>(contract: Cw721Contract<T>, store: MemoryStorage)
    requires
        !storage_entries(store).contains_key(contract.fee_key()),
    ensures
        contract.fee_in(store) == Some(0u64),
{
}

/// After `set_fee` the store holds the fee that was set, whatever it held
/// before.
pub proof fn lemma_fee_after_set<T>(
    contract: Cw721Contract<T>,
    before: MemoryStorage,
    after: MemoryStorage,
    fee: u64,
    r: Result<u64, ContractError>,
)
    requires
        contract.fee_set(before, after, fee, r),
    ensures
        contract.fee_in(after) == Some(fee),
        r matches Ok(v) && v == fee,
{
}

/// Setting the fee leaves the token counter and every balance as they were.
pub proof fn lemma_fee_set_leaves_rest<T>(
    contract: Cw721Contract<T>,
    before: MemoryStorage,
    after: MemoryStorage,
    fee: u64,
    r: Result<u64, ContractError>,
    denom: Seq<char>,
)
    requires
        contract.wf(),
        contract.fee_set(before, after, fee, r),
    ensures
        contract.count_in(after) == contract.count_in(before),
        contract.balance_in(after, denom) == contract.balance_in(before, denom),
{
    lemma_keys_apart(contract, denom, denom);
}

/// Increasing a balance and then decreasing it by the same amount restores
/// it, where the sum fits.
pub proof fn lemma_balance_round_trip<T>(
    contract: Cw721Contract<T>,
    start: MemoryStorage,
    middle: MemoryStorage,
    end: MemoryStorage,
    denom: Seq<char>,
    amount: u128,
    increased: Result<u128, ContractError>,
    decreased: Result<u128, ContractError>,
)
    requires
        contract.balance_in(start, denom) matches Some(v) ==> v + amount <= u128::MAX,
        contract.balance_increased(start, middle, denom, amount, increased),
        contract.balance_decreased(middle, end, denom, amount, decreased),
    ensures
        contract.balance_in(end, denom) == contract.balance_in(start, denom),
        contract.balance_in(start, denom) matches Some(v) ==> (increased matches Ok(w) && w == v
            + amount) && (decreased matches Ok(w) && w == v),
{
}

/// A balance changes no other: increasing one denomination's balance leaves
/// every other denomination's balance, the fee and the token counter as they
/// were.
pub proof fn lemma_balance_increase_leaves_rest<T>(
    contract: Cw721Contract<T>,
    before: MemoryStorage,
    after: MemoryStorage,
    denom: Seq<char>,
    amount: u128,
    r: Result<u128, ContractError>,
    other: Seq<char>,
)
    requires
        contract.wf(),
        contract.balance_increased(before, after, denom, amount, r),
        other != denom,
    ensures
        contract.balance_in(after, other) == contract.balance_in(before, other),
        contract.fee_in(after) == contract.fee_in(before),
        contract.count_in(after) == contract.count_in(before),
{
    lemma_keys_apart(contract, denom, other);
}

/// Counting up from zero: after `n` increments the counter stands at `n`,
/// and the increments returned 1, 2, and so on up to `n`.
pub proof fn lemma_count_after_increments<T>(
    contract: Cw721Contract<T>,
    stores: Seq<MemoryStorage>,
    results: Seq<Result<u64, ContractError>>,
    n: nat,
)
    requires
        n <= u64::MAX,
        stores.len() == n + 1,
        results.len() == n,
        contract.count_in(stores[0]) == Some(0u64),
        forall|i: int|
            0 <= i < n ==> contract.tokens_incremented(
                #[trigger] stores[i],
                stores[i + 1],
                results[i],
            ),
    ensures
        contract.count_in(stores[n as int]) == Some(n as u64),
        forall|i: int| 0 <= i < n ==> (#[trigger] results[i] matches Ok(v) && v == i + 1),
    decreases n,
{
    if n > 0 {
        let m = (n - 1) as nat;
        lemma_count_after_increments(contract, stores.take(n as int), results.take(m as int), m);
        assert(stores.take(n as int)[m as int] == stores[m as int]);
        assert(contract.tokens_incremented(stores[m as int], stores[m as int + 1], results[m as int]));
        assert forall|i: int| 0 <= i < n implies (#[trigger] results[i] matches Ok(v) && v == i
            + 1) by {
            if i < m {
                assert(results.take(m as int)[i] == results[i]);
            }
        }
    }
}

/// Counting up and down again: an increment followed by a decrement leaves
/// the counter where it was, below the largest count.
pub proof fn lemma_count_round_trip<T>(
    contract: Cw721Contract<T>,
    start: MemoryStorage,
    middle: MemoryStorage,
    end: MemoryStorage,
    incremented: Result<u64, ContractError>,
    decremented: Result<u64, ContractError>,
)
    requires
        contract.count_in(start) != Some(u64::MAX),
        contract.tokens_incremented(start, middle, incremented),
        contract.tokens_decremented(middle, end, decremented),
    ensures
        contract.count_in(end) == contract.count_in(start),
{
}

} // verus!
