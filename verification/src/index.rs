//! The owner index: the pairs of owner address and token identifier, kept in
//! order so that one owner's tokens are read out by identifier.

use vstd::prelude::*;
use vstd::seq_lib::seq_to_set_is_finite;
use crate::text::{
    lemma_text_precedes_connected, lemma_text_precedes_irreflexive,
    lemma_text_precedes_transitive, text_before, text_eq, text_precedes,
};

verus! {

/// One entry of the owner index.
#[derive(Clone, Debug, PartialEq, Eq)]
pub struct OwnerEntry {
    pub owner: String,
    pub id: String,
}

impl OwnerEntry {
    /// The entry as a pair of owner address and token identifier.
    pub open spec fn pair(&self) -> (Seq<char>, Seq<char>) {
        (self.owner@, self.id@)
    }
}

/// The order of index entries: by owner first, then by identifier.
pub open spec fn pair_precedes(a: (Seq<char>, Seq<char>), b: (Seq<char>, Seq<char>)) -> bool {
    text_precedes(a.0, b.0) || (a.0 == b.0 && text_precedes(a.1, b.1))
}

/// No pair comes before itself.
pub proof fn lemma_pair_precedes_irreflexive(a: (Seq<char>, Seq<char>))
    ensures
        !pair_precedes(a, a),
{
    lemma_text_precedes_irreflexive(a.0);
    lemma_text_precedes_irreflexive(a.1);
}

/// The order of pairs is transitive.
pub proof fn lemma_pair_precedes_transitive(
    a: (Seq<char>, Seq<char>),
    b: (Seq<char>, Seq<char>),
    c: (Seq<char>, Seq<char>),
)
    requires
        pair_precedes(a, b),
        pair_precedes(b, c),
    ensures
        pair_precedes(a, c),
{
    if text_precedes(a.0, b.0) && text_precedes(b.0, c.0) {
        lemma_text_precedes_transitive(a.0, b.0, c.0);
    }
    lemma_text_precedes_irreflexive(a.0);
    lemma_text_precedes_irreflexive(b.0);
    if a.0 == b.0 && b.0 == c.0 {
        lemma_text_precedes_transitive(a.1, b.1, c.1);
    }
}

/// Of two different pairs one comes before the other.
pub proof fn lemma_pair_precedes_connected(a: (Seq<char>, Seq<char>), b: (Seq<char>, Seq<char>))
    requires
        a != b,
    ensures
        pair_precedes(a, b) || pair_precedes(b, a),
{
    if a.0 != b.0 {
        lemma_text_precedes_connected(a.0, b.0);
    } else {
        lemma_text_precedes_connected(a.1, b.1);
    }
}

/// Two pairs of one owner are ordered as their identifiers are.
pub proof fn lemma_pair_precedes_same_owner(owner: Seq<char>, a: Seq<char>, b: Seq<char>)
    ensures
        pair_precedes((owner, a), (owner, b)) == text_precedes(a, b),
{
    lemma_text_precedes_irreflexive(owner);
}

/// Whether an identifier lies behind the place where a page starts.
pub open spec fn follows(start: Option<Seq<char>>, id: Seq<char>) -> bool {
    match start {
        Some(s) => text_precedes(s, id),
        None => true,
    }
}

/// The text of the identifier behind which a page starts, if there is one.
pub open spec fn start_text(start_after: Option<&str>) -> Option<Seq<char>> {
    match start_after {
        Some(s) => Some(s@),
        None => None,
    }
}

/// Whether `page` is the start of `members` read in ascending order and cut
/// off after `limit` identifiers: it holds members only, in strictly
/// ascending order, and a member that it lacks comes behind a full page.
pub open spec fn is_page_of(members: Set<Seq<char>>, limit: nat, page: Seq<Seq<char>>) -> bool {
    &&& page.len() <= limit
    &&& forall|i: int| 0 <= i < page.len() ==> members.contains(#[trigger] page[i])
    &&& forall|i: int, j: int|
        0 <= i < j < page.len() ==> text_precedes(#[trigger] page[i], #[trigger] page[j])
    &&& forall|id: Seq<char>|
        #[trigger] members.contains(id) && !page.contains(id) ==> page.len() == limit
    &&& forall|id: Seq<char>, i: int|
        #[trigger] members.contains(id) && !page.contains(id) && 0 <= i < page.len()
            ==> text_precedes(#[trigger] page[i], id)
}

/// The texts of a sequence of strings.
pub open spec fn texts(strings: Seq<String>) -> Seq<Seq<char>> {
    Seq::new(strings.len(), |i: int| strings[i]@)
}

/// Whether `id` lies behind the place where a page starts.
pub fn after_start(start_after: Option<&str>, id: &str) -> (r: bool)
    ensures
        r == follows(start_text(start_after), id@),
{
    match start_after {
        Some(s) => text_before(s, id),
        None => true,
    }
}

/// The secondary indexes of the token table. There is one, by owner.
pub struct TokenIndexes {
    owner: Vec<OwnerEntry>,
}

impl TokenIndexes {
    /// The entries of the owner index, in the order in which they are kept.
    pub closed spec fn entries(&self) -> Seq<(Seq<char>, Seq<char>)> {
        Seq::new(self.owner@.len(), |k: int| self.owner@[k].pair())
    }

    /// The entries stand in strictly ascending order, so none occurs twice.
    pub open spec fn wf(&self) -> bool {
        forall|i: int, j: int|
            0 <= i < j < self.entries().len() ==> pair_precedes(
                #[trigger] self.entries()[i],
                #[trigger] self.entries()[j],
            )
    }

    /// The pairs of owner and identifier that the index holds.
    pub open spec fn pairs(&self) -> Set<(Seq<char>, Seq<char>)> {
        Set::new(
            |p: (Seq<char>, Seq<char>)|
                exists|k: int| 0 <= k < self.entries().len() && #[trigger] self.entries()[k] == p,
        )
    }

    /// Whether a page of an owner's tokens that starts behind `start` has
    /// `id` in it or behind it.
    pub open spec fn in_range(
        &self,
        owner: Seq<char>,
        start: Option<Seq<char>>,
        id: Seq<char>,
    ) -> bool {
        self.pairs().contains((owner, id)) && follows(start, id)
    }

    /// The identifiers that a page of an owner's tokens is cut from: those
    /// indexed under the owner that lie behind `start`.
    pub open spec fn range_ids(&self, owner: Seq<char>, start: Option<Seq<char>>) -> Set<
        Seq<char>,
    > {
        Set::new(|id: Seq<char>| self.in_range(owner, start, id))
    }

    /// An index without entries.
    pub fn new() -> (r: Self)
        ensures
            r.wf(),
            r.pairs() == Set::<(Seq<char>, Seq<char>)>::empty(),
    {
        let r = TokenIndexes { owner: Vec::new() };
        assert(r.pairs() =~= Set::<(Seq<char>, Seq<char>)>::empty());
        r
    }

    /// The number of pairs that the index holds.
    pub fn len(&self) -> (n: usize)
        requires
            self.wf(),
        ensures
            self.pairs().finite(),
            n == self.pairs().len(),
    {
        proof {
            let held = self.entries();
            assert forall|i: int, j: int|
                0 <= i < held.len() && 0 <= j < held.len() && i != j implies held[i]
                != held[j] by {
                lemma_pair_precedes_irreflexive(held[i]);
                if i < j {
                    assert(pair_precedes(held[i], held[j]));
                } else {
                    assert(pair_precedes(held[j], held[i]));
                }
            }
            held.unique_seq_to_set();
            seq_to_set_is_finite(held);
            assert(self.pairs() =~= held.to_set());
        }
        self.owner.len()
    }

    /// The place of the first entry that does not come before the pair.
    fn lower_bound(&self, owner: &str, id: &str) -> (k: usize)
        requires
            self.wf(),
        ensures
            k <= self.entries().len(),
            forall|j: int| 0 <= j < k ==> pair_precedes(self.entries()[j], (owner@, id@)),
            forall|j: int|
                k <= j < self.entries().len() ==> !pair_precedes(
                    self.entries()[j],
                    (owner@, id@),
                ),
    {
        let mut k: usize = 0;
        while k < self.owner.len() && Self::entry_before(&self.owner[k], owner, id)
            invariant
                k <= self.owner@.len(),
                forall|j: int| 0 <= j < k ==> pair_precedes(self.entries()[j], (owner@, id@)),
            decreases self.owner@.len() - k,
        {
            k += 1;
        }
        proof {
            let p = (owner@, id@);
            assert forall|j: int| k <= j < self.entries().len() implies !pair_precedes(
                self.entries()[j],
                p,
            ) by {
                if j > k && pair_precedes(self.entries()[j], p) {
                    assert(pair_precedes(self.entries()[k as int], self.entries()[j]));
                    lemma_pair_precedes_transitive(self.entries()[k as int], self.entries()[j], p);
                }
            }
        }
        k
    }

    /// Whether an entry comes before the pair of `owner` and `id`.
    fn entry_before(entry: &OwnerEntry, owner: &str, id: &str) -> (r: bool)
        ensures
            r == pair_precedes(entry.pair(), (owner@, id@)),
    {
        text_before(entry.owner.as_str(), owner) || (text_eq(entry.owner.as_str(), owner)
            && text_before(entry.id.as_str(), id))
    }

    /// Whether an entry is the pair of `owner` and `id`.
    fn entry_is(entry: &OwnerEntry, owner: &str, id: &str) -> (r: bool)
        ensures
            r == (entry.pair() == (owner@, id@)),
    {
        text_eq(entry.owner.as_str(), owner) && text_eq(entry.id.as_str(), id)
    }

    /// Whether the index holds the pair of `owner` and `id`.
    pub fn contains(&self, owner: &str, id: &str) -> (r: bool)
        requires
            self.wf(),
        ensures
            r == self.pairs().contains((owner@, id@)),
    {
        let k = self.lower_bound(owner, id);
        let found = k < self.owner.len() && Self::entry_is(&self.owner[k], owner, id);
        proof {
            let p = (owner@, id@);
            if found {
                assert(self.entries()[k as int] == p);
            }
            if !found && self.pairs().contains(p) {
                let j = choose|j: int| 0 <= j < self.entries().len() && self.entries()[j] == p;
                lemma_pair_precedes_irreflexive(p);
                if j > k {
                    assert(pair_precedes(self.entries()[k as int], self.entries()[j]));
                }
            }
        }
        found
    }

    /// Puts the pair of `owner` and `id` into the index, at its place in the
    /// order. A pair that is there already stays as it is.
    pub fn insert(&mut self, owner: String, id: String)
        requires
            old(self).wf(),
        ensures
            final(self).wf(),
            final(self).pairs() == old(self).pairs().insert((owner@, id@)),
    {
        let k = self.lower_bound(owner.as_str(), id.as_str());
        let ghost p = (owner@, id@);
        let ghost before = self.entries();
        if k < self.owner.len() && Self::entry_is(&self.owner[k], owner.as_str(), id.as_str()) {
            assert(self.pairs() =~= self.pairs().insert(p)) by {
                assert(self.entries()[k as int] == p);
            }
            return ;
        }
        self.owner.insert(k, OwnerEntry { owner, id });
        proof {
            let after = self.entries();
            assert(after =~= before.insert(k as int, p));
            assert forall|j: int| k <= j < before.len() implies pair_precedes(p, before[j]) by {
                lemma_pair_precedes_connected(before[k as int], p);
                if j > k {
                    assert(pair_precedes(before[k as int], before[j]));
                    lemma_pair_precedes_transitive(p, before[k as int], before[j]);
                }
            }
            assert forall|i: int, j: int| 0 <= i < j < after.len() implies pair_precedes(
                #[trigger] after[i],
                #[trigger] after[j],
            ) by {
                if j < k {
                    assert(pair_precedes(before[i], before[j]));
                } else if j == k {
                } else if i < k {
                    assert(pair_precedes(before[i], before[j - 1]));
                } else if i == k {
                } else {
                    assert(pair_precedes(before[i - 1], before[j - 1]));
                }
            }
            assert forall|q: (Seq<char>, Seq<char>)|
                self.pairs().contains(q) <==> old(self).pairs().insert(p).contains(q) by {
                if self.pairs().contains(q) {
                    let j = choose|j: int| 0 <= j < after.len() && after[j] == q;
                    if j < k {
                        assert(before[j] == q);
                    } else if j > k {
                        assert(before[j - 1] == q);
                    }
                }
                if old(self).pairs().contains(q) {
                    let j = choose|j: int| 0 <= j < before.len() && before[j] == q;
                    if j < k {
                        assert(after[j] == q);
                    } else {
                        assert(after[j + 1] == q);
                    }
                }
                if q == p {
                    assert(after[k as int] == q);
                }
            }
            assert(self.pairs() =~= old(self).pairs().insert(p));
        }
    }

    /// Takes the pair of `owner` and `id` out of the index. Where the index
    /// does not hold it, nothing changes.
    pub fn remove(&mut self, owner: &str, id: &str)
        requires
            old(self).wf(),
        ensures
            final(self).wf(),
            final(self).pairs() == old(self).pairs().remove((owner@, id@)),
    {
        let k = self.lower_bound(owner, id);
        let ghost p = (owner@, id@);
        let ghost before = self.entries();
        if k >= self.owner.len() || !Self::entry_is(&self.owner[k], owner, id) {
            proof {
                if self.pairs().contains(p) {
                    let j = choose|j: int| 0 <= j < before.len() && before[j] == p;
                    lemma_pair_precedes_irreflexive(p);
                    if j > k {
                        assert(pair_precedes(before[k as int], before[j]));
                    }
                }
                assert(self.pairs() =~= self.pairs().remove(p));
            }
            return ;
        }
        let _ = self.owner.remove(k);
        proof {
            let after = self.entries();
            assert(after =~= before.remove(k as int));
            assert forall|i: int, j: int| 0 <= i < j < after.len() implies pair_precedes(
                #[trigger] after[i],
                #[trigger] after[j],
            ) by {
                let oi = if i < k { i } else { i + 1 };
                let oj = if j < k { j } else { j + 1 };
                assert(pair_precedes(before[oi], before[oj]));
            }
            assert forall|q: (Seq<char>, Seq<char>)|
                self.pairs().contains(q) <==> old(self).pairs().remove(p).contains(q) by {
                if self.pairs().contains(q) {
                    let j = choose|j: int| 0 <= j < after.len() && after[j] == q;
                    let oj = if j < k { j } else { j + 1 };
                    assert(before[oj] == q);
                    lemma_pair_precedes_irreflexive(p);
                    if oj < k {
                        assert(pair_precedes(before[oj], before[k as int]));
                    } else {
                        assert(pair_precedes(before[k as int], before[oj]));
                    }
                }
                if old(self).pairs().remove(p).contains(q) {
                    let j = choose|j: int| 0 <= j < before.len() && before[j] == q;
                    if j < k {
                        assert(after[j] == q);
                    } else {
                        assert(after[j - 1] == q);
                    }
                }
            }
            assert(self.pairs() =~= old(self).pairs().remove(p));
        }
    }

    /// The identifiers indexed under `owner` that lie behind `start_after`, in
    /// ascending order, `limit` of them at most.
    pub fn ids_of(&self, owner: &str, start_after: Option<&str>, limit: usize) -> (r: Vec<String>)
        requires
            self.wf(),
        ensures
            is_page_of(self.range_ids(owner@, start_text(start_after)), limit as nat, texts(r@)),
    {
        let mut out: Vec<String> = Vec::new();
        let ghost mut src: Seq<int> = Seq::empty();
        let mut k: usize = 0;
        while k < self.owner.len() && out.len() < limit
            invariant
                self.wf(),
                k <= self.owner@.len(),
                out@.len() <= limit,
                src.len() == out@.len(),
                forall|i: int|
                    0 <= i < out@.len() ==> 0 <= #[trigger] src[i] < k && self.entries()[src[i]] == (
                        owner@,
                        out@[i]@,
                    ) && follows(start_text(start_after), out@[i]@),
                forall|i: int, j: int|
                    0 <= i < j < out@.len() ==> #[trigger] src[i] < #[trigger] src[j],
                forall|j: int|
                    0 <= j < k && (#[trigger] self.entries()[j]).0 == owner@ && follows(
                        start_text(start_after),
                        self.entries()[j].1,
                    ) ==> exists|i: int| 0 <= i < out@.len() && #[trigger] src[i] == j,
            decreases self.owner@.len() - k,
        {
            let entry = &self.owner[k];
            if text_eq(entry.owner.as_str(), owner) && after_start(start_after, entry.id.as_str()) {
                out.push(entry.id.clone());
                proof {
                    let ghost grown = src.push(k as int);
                    assert forall|j: int|
                        0 <= j < k + 1 && (#[trigger] self.entries()[j]).0 == owner@ && follows(
                            start_text(start_after),
                            self.entries()[j].1,
                        ) implies exists|i: int| 0 <= i < out@.len() && #[trigger] grown[i] == j by {
                        if j < k {
                            let i = choose|i: int| 0 <= i < src.len() && #[trigger] src[i] == j;
                            assert(grown[i] == j);
                        } else {
                            assert(grown[out@.len() - 1] == j);
                        }
                    }
                    src = grown;
                }
            }
            k += 1;
        }
        proof {
            let page = texts(out@);
            let members = self.range_ids(owner@, start_text(start_after));
            assert forall|i: int| 0 <= i < page.len() implies members.contains(
                #[trigger] page[i],
            ) by {
                assert(self.entries()[src[i]] == (owner@, page[i]));
            }
            assert forall|i: int, j: int| 0 <= i < j < page.len() implies text_precedes(
                #[trigger] page[i],
                #[trigger] page[j],
            ) by {
                assert(src[i] < src[j]);
                assert(pair_precedes(self.entries()[src[i]], self.entries()[src[j]]));
                lemma_pair_precedes_same_owner(owner@, page[i], page[j]);
            }
            assert forall|id: Seq<char>| #[trigger]
                members.contains(id) && !page.contains(id) implies page.len() == limit && (
            forall|i: int| 0 <= i < page.len() ==> text_precedes(#[trigger] page[i], id)) by {
                let j = choose|j: int|
                    0 <= j < self.entries().len() && #[trigger] self.entries()[j] == (owner@, id);
                if j < k {
                    let i = choose|i: int| 0 <= i < out@.len() && #[trigger] src[i] == j;
                    assert(page[i] == id);
                }
                assert forall|i: int| 0 <= i < page.len() implies text_precedes(
                    #[trigger] page[i],
                    id,
                ) by {
                    assert(src[i] < j);
                    assert(pair_precedes(self.entries()[src[i]], self.entries()[j]));
                    lemma_pair_precedes_same_owner(owner@, page[i], id);
                }
            }
        }
        out
    }
}

} // verus!
