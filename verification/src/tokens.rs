//! The token table: one record per token identifier, and the owner index that
//! every write keeps in step with the records.
//!
//! The table holds the records as values, whatever the payload that a caller
//! attaches to them, and lives in memory for the length of a transaction.
//! Writing the records to a store is the caller's part, under the two
//! namespaces that the contract keeps for them.

use vstd::prelude::*;
use vstd::seq_lib::seq_to_set_is_finite;
use vstd::string::*;
use crate::error::ContractError;
use crate::expiration::Approval;
use crate::index::{follows, is_page_of, start_text, texts, TokenIndexes};
use crate::owner::Owner;
use crate::text::text_eq;

verus! {

/// The terms of a long-term rental, kept as the message layer encoded them.
#[derive(Clone, Debug, PartialEq, Eq)]
pub struct LongTermRental {
    pub data: Vec<u8>,
}

/// The terms of a short-term rental, kept as the message layer encoded them.
#[derive(Clone, Debug, PartialEq, Eq)]
pub struct ShortTermRental {
    pub data: Vec<u8>,
}

/// One rental of a token, kept as the message layer encoded it.
#[derive(Clone, Debug, PartialEq, Eq)]
pub struct Rental {
    pub data: Vec<u8>,
}

/// One bid for a token, kept as the message layer encoded it.
#[derive(Clone, Debug, PartialEq, Eq)]
pub struct Bid {
    pub data: Vec<u8>,
}

/// The terms of a sale, kept as the message layer encoded them.
#[derive(Clone, Debug, PartialEq, Eq)]
pub struct Sell {
    pub data: Vec<u8>,
}

/// The record of one token.
#[derive(Clone, Debug, PartialEq)]
pub struct TokenInfo<T> {
    /// The owner of the token.
    pub owner: Owner,
    /// The approvals, which are all cleared on transfer.
    pub approvals: Vec<Approval>,
    pub longterm_rental: LongTermRental,
    pub shortterm_rental: ShortTermRental,
    pub rentals: Vec<Rental>,
    pub bids: Vec<Bid>,
    pub sell: Sell,
    pub token_uri: Option<String>,
    /// What the caller attaches to the record.
    pub extension: T,
}

/// The key under which the owner index files a record: the address of the
/// record's owner.
pub fn token_owner_idx<T>(_pk: &[u8], d: &TokenInfo<T>) -> (r: String)
    ensures
        r@ == d.owner.address@,
{
    d.owner.address.clone()
}

/// A token identifier with its record.
#[derive(Clone, Debug, PartialEq)]
pub struct TokenEntry<T> {
    pub id: String,
    pub info: TokenInfo<T>,
}

/// The pairs of owner address and identifier that a set of records calls for.
pub open spec fn owner_pairs<T>(records: Map<Seq<char>, TokenInfo<T>>) -> Set<
    (Seq<char>, Seq<char>),
> {
    Set::new(
        |p: (Seq<char>, Seq<char>)| records.contains_key(p.1) && records[p.1].owner.address@ == p.0,
    )
}

/// The identifiers of a sequence of entries.
pub open spec fn entry_ids<T>(entries: Seq<&TokenEntry<T>>) -> Seq<Seq<char>> {
    Seq::new(entries.len(), |i: int| entries[i].id@)
}

/// The token table.
pub struct IndexedTokens<T> {
    entries: Vec<TokenEntry<T>>,
    idx: TokenIndexes,
}

impl<T> IndexedTokens<T> {
    spec fn has(&self, id: Seq<char>) -> bool {
        exists|i: int| 0 <= i < self.entries@.len() && (#[trigger] self.entries@[i]).id@ == id
    }

    spec fn slot(&self, id: Seq<char>) -> int {
        choose|i: int| 0 <= i < self.entries@.len() && (#[trigger] self.entries@[i]).id@ == id
    }

    /// The record of each identifier in the table.
    pub closed spec fn records(&self) -> Map<Seq<char>, TokenInfo<T>> {
        Map::new(|id: Seq<char>| self.has(id), |id: Seq<char>| self.entries@[self.slot(id)].info)
    }

    /// The pairs of owner address and identifier that the owner index holds.
    pub closed spec fn index_pairs(&self) -> Set<(Seq<char>, Seq<char>)> {
        self.idx.pairs()
    }

    /// No identifier has two records, and the index is in order.
    pub closed spec fn inv(&self) -> bool {
        &&& self.idx.wf()
        &&& forall|i: int, j: int|
            0 <= i < j < self.entries@.len() ==> (#[trigger] self.entries@[i]).id@ != (
            #[trigger] self.entries@[j]).id@
    }

    /// The table is in order and the index holds, for each record, the pair
    /// of its owner's address and its identifier, and no other pair.
    pub open spec fn wf(&self) -> bool {
        &&& self.inv()
        &&& self.index_pairs() == owner_pairs(self.records())
    }

    /// The identifiers of the tokens whose record names `owner`.
    pub open spec fn owned_ids(&self, owner: Seq<char>) -> Set<Seq<char>> {
        Set::new(
            |id: Seq<char>|
                self.records().contains_key(id) && self.records()[id].owner.address@ == owner,
        )
    }

    /// The identifiers under which the index files `owner`.
    pub open spec fn indexed_ids(&self, owner: Seq<char>) -> Set<Seq<char>> {
        Set::new(|id: Seq<char>| self.index_pairs().contains((owner, id)))
    }

    /// The owner's tokens that lie behind `start`.
    pub open spec fn owned_after(&self, owner: Seq<char>, start: Option<Seq<char>>) -> Set<
        Seq<char>,
    > {
        Set::new(|id: Seq<char>| self.owned_ids(owner).contains(id) && follows(start, id))
    }

    proof fn lemma_slot(&self, i: int)
        requires
            self.inv(),
            0 <= i < self.entries@.len(),
        ensures
            self.has(self.entries@[i].id@),
            self.slot(self.entries@[i].id@) == i,
            self.records().contains_key(self.entries@[i].id@),
            self.records()[self.entries@[i].id@] == self.entries@[i].info,
    {
        let id = self.entries@[i].id@;
        let j = self.slot(id);
        assert(self.entries@[j].id@ == id);
        if j < i {
            assert(self.entries@[j].id@ != self.entries@[i].id@);
        } else if i < j {
            assert(self.entries@[i].id@ != self.entries@[j].id@);
        }
    }

    proof fn lemma_records(&self)
        requires
            self.inv(),
        ensures
            forall|i: int|
                0 <= i < self.entries@.len() ==> self.records().contains_key(
                    (#[trigger] self.entries@[i]).id@,
                ) && self.records()[self.entries@[i].id@] == self.entries@[i].info,
            forall|k: Seq<char>| #[trigger]
                self.records().contains_key(k) ==> 0 <= self.slot(k) < self.entries@.len()
                    && self.entries@[self.slot(k)].id@ == k,
    {
        assert forall|i: int| 0 <= i < self.entries@.len() implies self.records().contains_key(
            (#[trigger] self.entries@[i]).id@,
        ) && self.records()[self.entries@[i].id@] == self.entries@[i].info by {
            self.lemma_slot(i);
        }
    }

    /// A table without tokens.
    pub fn new() -> (r: Self)
        ensures
            r.wf(),
            r.records() == Map::<Seq<char>, TokenInfo<T>>::empty(),
    {
        let r = IndexedTokens { entries: Vec::new(), idx: TokenIndexes::new() };
        proof {
            assert(r.records() =~= Map::<Seq<char>, TokenInfo<T>>::empty());
            assert(r.index_pairs() =~= owner_pairs(r.records()));
        }
        r
    }

    /// The number of tokens.
    pub fn len(&self) -> (n: usize)
        requires
            self.wf(),
        ensures
            self.records().dom().finite(),
            n == self.records().dom().len(),
    {
        proof {
            let ids = Seq::new(self.entries@.len(), |i: int| self.entries@[i].id@);
            assert forall|i: int, j: int|
                0 <= i < ids.len() && 0 <= j < ids.len() && i != j implies ids[i] != ids[j] by {
                if i < j {
                    assert(self.entries@[i].id@ != self.entries@[j].id@);
                } else {
                    assert(self.entries@[j].id@ != self.entries@[i].id@);
                }
            }
            ids.unique_seq_to_set();
            seq_to_set_is_finite(ids);
            assert forall|id: Seq<char>| self.records().dom().contains(id) <==> ids.to_set().contains(
                id,
            ) by {
                if self.records().dom().contains(id) {
                    let i = self.slot(id);
                    assert(ids[i] == id);
                }
                if ids.to_set().contains(id) {
                    let i = choose|i: int| 0 <= i < ids.len() && ids[i] == id;
                    assert(self.entries@[i].id@ == id);
                }
            }
            assert(self.records().dom() =~= ids.to_set());
        }
        self.entries.len()
    }

    /// The place of a token's entry.
    fn position(&self, id: &str) -> (r: Option<usize>)
        requires
            self.inv(),
        ensures
            match r {
                Some(i) => i < self.entries@.len() && self.entries@[i as int].id@ == id@,
                None => !self.has(id@),
            },
    {
        let mut i: usize = 0;
        while i < self.entries.len()
            invariant
                i <= self.entries@.len(),
                forall|k: int| 0 <= k < i ==> (#[trigger] self.entries@[k]).id@ != id@,
            decreases self.entries@.len() - i,
        {
            if text_eq(self.entries[i].id.as_str(), id) {
                return Some(i);
            }
            i += 1;
        }
        None
    }

    /// Whether the table holds a record for the identifier.
    pub fn has_token(&self, id: &str) -> (r: bool)
        requires
            self.wf(),
        ensures
            r == self.records().contains_key(id@),
    {
        match self.position(id) {
            Some(i) => {
                proof {
                    self.lemma_slot(i as int);
                }
                true
            },
            None => false,
        }
    }

    /// The record of a token, or `None` where the table has none for it.
    pub fn load(&self, id: &str) -> (r: Option<&TokenInfo<T>>)
        requires
            self.wf(),
        ensures
            match r {
                Some(info) => self.records().contains_key(id@) && *info == self.records()[id@],
                None => !self.records().contains_key(id@),
            },
    {
        match self.position(id) {
            Some(i) => {
                proof {
                    self.lemma_slot(i as int);
                }
                Some(&self.entries[i].info)
            },
            None => None,
        }
    }

    /// Writes the record of a token, new or not, and files the token under
    /// the record's owner in the index, and under no other.
    pub fn save(&mut self, id: &str, info: TokenInfo<T>) -> (r: Result<(), ContractError>)
        requires
            old(self).wf(),
        ensures
            r is Ok,
            final(self).wf(),
            final(self).records() == old(self).records().insert(id@, info),
    {
        let new_owner = token_owner_idx(id.as_bytes(), &info);
        proof {
            old(self).lemma_records();
        }
        match self.position(id) {
            Some(i) => {
                let old_owner = token_owner_idx(id.as_bytes(), &self.entries[i].info);
                if !text_eq(old_owner.as_str(), new_owner.as_str()) {
                    self.idx.remove(old_owner.as_str(), id);
                }
                self.idx.insert(new_owner, String::from_str(id));
                self.entries.set(i, TokenEntry { id: String::from_str(id), info });
                proof {
                    assert forall|a: int, b: int|
                        0 <= a < b < self.entries@.len() implies (#[trigger] self.entries@[a]).id@
                        != (#[trigger] self.entries@[b]).id@ by {
                        assert(self.entries@[a].id@ == old(self).entries@[a].id@);
                        assert(self.entries@[b].id@ == old(self).entries@[b].id@);
                    }
                    self.lemma_records();
                    assert forall|k: Seq<char>|
                        self.records().contains_key(k) <==> old(self).records().insert(
                            id@,
                            info,
                        ).contains_key(k) by {
                        if self.records().contains_key(k) {
                            let j = self.slot(k);
                            assert(old(self).entries@[j].id@ == k);
                        }
                        if old(self).records().contains_key(k) {
                            let j = old(self).slot(k);
                            assert(self.entries@[j].id@ == k);
                        }
                        if k == id@ {
                            assert(self.entries@[i as int].id@ == k);
                        }
                    }
                    assert forall|k: Seq<char>| self.records().contains_key(k) implies self.records()[k]
                        == old(self).records().insert(id@, info)[k] by {
                        let j = self.slot(k);
                        assert(old(self).entries@[j].id@ == k);
                    }
                    assert(self.records() =~= old(self).records().insert(id@, info));
                    assert(self.index_pairs() =~= owner_pairs(self.records()));
                }
            },
            None => {
                self.idx.insert(new_owner, String::from_str(id));
                self.entries.push(TokenEntry { id: String::from_str(id), info });
                proof {
                    let n = old(self).entries@.len() as int;
                    assert forall|a: int, b: int|
                        0 <= a < b < self.entries@.len() implies (#[trigger] self.entries@[a]).id@
                        != (#[trigger] self.entries@[b]).id@ by {
                        assert(self.entries@[a] == old(self).entries@[a]);
                        if b < n {
                            assert(self.entries@[b] == old(self).entries@[b]);
                        }
                    }
                    self.lemma_records();
                    assert forall|k: Seq<char>|
                        self.records().contains_key(k) <==> old(self).records().insert(
                            id@,
                            info,
                        ).contains_key(k) by {
                        if self.records().contains_key(k) {
                            let j = self.slot(k);
                            if j < n {
                                assert(old(self).entries@[j].id@ == k);
                            }
                        }
                        if old(self).records().contains_key(k) {
                            let j = old(self).slot(k);
                            assert(self.entries@[j].id@ == k);
                        }
                        if k == id@ {
                            assert(self.entries@[n].id@ == k);
                        }
                    }
                    assert forall|k: Seq<char>| self.records().contains_key(k) implies self.records()[k]
                        == old(self).records().insert(id@, info)[k] by {
                        let j = self.slot(k);
                        if j < n {
                            assert(old(self).entries@[j].id@ == k);
                        }
                    }
                    assert(self.records() =~= old(self).records().insert(id@, info));
                    assert(self.index_pairs() =~= owner_pairs(self.records()));
                }
            },
        }
        Ok(())
    }

    /// Deletes the record of a token and takes the token out of the index,
    /// under the owner that the deleted record names. Where the table has no
    /// record for the identifier, nothing changes.
    pub fn remove(&mut self, id: &str) -> (r: Result<(), ContractError>)
        requires
            old(self).wf(),
        ensures
            r is Ok,
            final(self).wf(),
            final(self).records() == old(self).records().remove(id@),
    {
        proof {
            old(self).lemma_records();
        }
        match self.position(id) {
            Some(i) => {
                let owner = token_owner_idx(id.as_bytes(), &self.entries[i].info);
                self.idx.remove(owner.as_str(), id);
                let _ = self.entries.remove(i);
                proof {
                    assert forall|a: int, b: int|
                        0 <= a < b < self.entries@.len() implies (#[trigger] self.entries@[a]).id@
                        != (#[trigger] self.entries@[b]).id@ by {
                        let oa = if a < i { a } else { a + 1 };
                        let ob = if b < i { b } else { b + 1 };
                        assert(self.entries@[a] == old(self).entries@[oa]);
                        assert(self.entries@[b] == old(self).entries@[ob]);
                    }
                    self.lemma_records();
                    assert forall|k: Seq<char>|
                        self.records().contains_key(k) <==> old(self).records().remove(
                            id@,
                        ).contains_key(k) by {
                        if self.records().contains_key(k) {
                            let j = self.slot(k);
                            let oj = if j < i { j } else { j + 1 };
                            assert(old(self).entries@[oj].id@ == k);
                            if oj < i {
                                assert(old(self).entries@[oj].id@ != old(self).entries@[i as int].id@);
                            } else {
                                assert(old(self).entries@[i as int].id@ != old(self).entries@[oj].id@);
                            }
                        }
                        if old(self).records().contains_key(k) && k != id@ {
                            let j = old(self).slot(k);
                            let nj = if j < i { j } else { j - 1 };
                            assert(self.entries@[nj].id@ == k);
                        }
                    }
                    assert forall|k: Seq<char>| self.records().contains_key(k) implies self.records()[k]
                        == old(self).records().remove(id@)[k] by {
                        let j = self.slot(k);
                        let oj = if j < i { j } else { j + 1 };
                        assert(old(self).entries@[oj].id@ == k);
                    }
                    assert(self.records() =~= old(self).records().remove(id@));
                    assert(self.index_pairs() =~= owner_pairs(self.records()));
                }
            },
            None => {
                assert(self.records() =~= old(self).records().remove(id@));
            },
        }
        Ok(())
    }

    /// One page of an owner's tokens with their records: those that lie
    /// behind `start_after`, in ascending order of their identifiers, `limit`
    /// of them at most. A caller reads on by passing the last identifier of
    /// a page as the next `start_after`.
    pub fn query_by_owner(&self, owner: &str, start_after: Option<&str>, limit: usize) -> (r: Vec<
        &TokenEntry<T>,
    >)
        requires
            self.wf(),
        ensures
            is_page_of(self.owned_after(owner@, start_text(start_after)), limit as nat, entry_ids(r@)),
            forall|i: int|
                0 <= i < r@.len() ==> self.records().contains_key((#[trigger] r@[i]).id@)
                    && self.records()[r@[i].id@] == r@[i].info,
    {
        let ids = self.idx.ids_of(owner, start_after, limit);
        let mut out: Vec<&TokenEntry<T>> = Vec::new();
        proof {
            self.lemma_records();
            assert(self.idx.range_ids(owner@, start_text(start_after)) =~= self.owned_after(owner@, start_text(start_after)));
        }
        let mut k: usize = 0;
        while k < ids.len()
            invariant
                self.wf(),
                k <= ids@.len(),
                out@.len() == k,
                is_page_of(self.owned_after(owner@, start_text(start_after)), limit as nat, texts(ids@)),
                forall|i: int|
                    0 <= i < k ==> (#[trigger] out@[i]).id@ == ids@[i]@ && self.records().contains_key(
                        out@[i].id@,
                    ) && self.records()[out@[i].id@] == out@[i].info,
            decreases ids@.len() - k,
        {
            proof {
                assert(self.owned_after(owner@, start_text(start_after)).contains(texts(ids@)[k as int]));
            }
            match self.position(ids[k].as_str()) {
                Some(p) => {
                    proof {
                        self.lemma_slot(p as int);
                    }
                    out.push(&self.entries[p]);
                },
                None => {
                    proof {
                        assert(false);
                    }
                },
            }
            k += 1;
        }
        proof {
            assert(entry_ids(out@) =~= texts(ids@));
        }
        out
    }
}

} // verus!
