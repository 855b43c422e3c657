//! The record store and the trie kept together: every insert and delete goes
//! through the store first and then the trie, and searches narrow the ids
//! with the trie before reading the values from the store.
use vstd::prelude::*;
use crate::linear::{linear_search, matching, pairs_view};
use crate::matcher::is_subsequence;
use crate::store::{delete_outcome, keeps_values, IndexError, RecordStore};
use crate::trie::TrieIndex;

verus! {

/// The live records of `recs`, by id.
pub open spec fn live_map(recs: Seq<(Seq<char>, bool)>) -> Map<u64, Seq<char>> {
    Map::new(|id: u64| id < recs.len() && recs[id as int].1, |id: u64| recs[id as int].0)
}

/// What a trie holding the records `entries` answers for `q`, as
/// `(id, value)` pairs.
pub open spec fn trie_answer(entries: Map<u64, Seq<char>>, q: Seq<char>) -> Set<(u64, Seq<char>)> {
    Set::new(|p: (u64, Seq<char>)| entries.contains_key(p.0) && entries[p.0] == p.1 && is_subsequence(p.1, q))
}

/// A trie that holds exactly the live records of a store answers every
/// query as the linear scan of that store does.
pub proof fn lemma_trie_answer_is_linear_answer(recs: Seq<(Seq<char>, bool)>, q: Seq<char>)
    ensures
        trie_answer(live_map(recs), q) == matching(recs, q),
{
    assert(trie_answer(live_map(recs), q) =~= matching(recs, q));
}

/// A search for any subsequence of a live record's value, such as a token
/// cut from it, finds that record.
pub proof fn lemma_subsequence_finds_its_record(recs: Seq<(Seq<char>, bool)>, id: u64, q: Seq<char>)
    requires
        id < recs.len(),
        recs[id as int].1,
        is_subsequence(recs[id as int].0, q),
    ensures
        matching(recs, q).contains((id, recs[id as int].0)),
{
}

/// A subsequence index over a growing and shrinking set of records.
pub struct SubsequenceIndex {
    store: RecordStore,
    trie: TrieIndex,
}

impl SubsequenceIndex {
    /// Every record inserted so far, by id: its value and whether it is live.
    pub closed spec fn view(&self) -> Seq<(Seq<char>, bool)> {
        self.store@
    }

    /// The trie holds exactly the live records of the store.
    pub closed spec fn wf(&self) -> bool {
        &&& self.trie.wf()
        &&& self.trie@ == live_map(self.store@)
    }

    /// An empty index.
    pub fn new() -> (s: Self)
        ensures
            s.wf(),
            s@ == Seq::<(Seq<char>, bool)>::empty(),
    {
        let s = SubsequenceIndex { store: RecordStore::new(), trie: TrieIndex::new() };
        assert(s.trie@ =~= live_map(s.store@));
        s
    }

    /// The number of ids issued so far, which is also the next id.
    pub fn len(&self) -> (n: u64)
        ensures
            n == self@.len(),
    {
        self.store.len()
    }

    /// Stores `value` as a live record under the next id, indexes it, and
    /// returns its id.
    pub fn insert(&mut self, value: &str) -> (id: u64)
        requires
            old(self).wf(),
            old(self)@.len() < u64::MAX,
        ensures
            final(self).wf(),
            id == old(self)@.len(),
            final(self)@ == old(self)@.push((value@, true)),
            keeps_values(old(self)@, final(self)@),
    {
        let id = self.store.insert(value);
        self.trie.insert(id, value);
        assert(self.trie@ =~= live_map(self.store@));
        id
    }

    /// Deletes the record `id`: it leaves every search, and its value stays
    /// retrievable with `get`. Fails with `NotFound` on an id never issued and
    /// with `AlreadyDeleted` on a deleted record, and then changes nothing.
    pub fn delete(&mut self, id: u64) -> (r: Result<(), IndexError>)
        requires
            old(self).wf(),
        ensures
            final(self).wf(),
            (r, final(self)@) == delete_outcome(old(self)@, id),
            keeps_values(old(self)@, final(self)@),
    {
        let value = match self.store.get(id) {
            Ok(v) => v.to_owned(),
            Err(e) => {
                return Err(e);
            },
        };
        let r = self.store.delete(id);
        if r.is_ok() {
            self.trie.delete(id, value.as_str());
            assert(self.trie@ =~= live_map(self.store@));
        }
        r
    }

    /// The value stored under `id`, live or deleted; `NotFound` on an id
    /// never issued.
    pub fn get(&self, id: u64) -> (r: Result<&str, IndexError>)
        ensures
            id < self@.len() ==> r is Ok && r->Ok_0@ == self@[id as int].0,
            id >= self@.len() ==> r == Err::<&str, IndexError>(IndexError::NotFound),
    {
        self.store.get(id)
    }

    /// The live records whose value holds `query` as a subsequence, as
    /// `(id, value)` pairs, found through the trie.
    pub fn search(&self, query: &str) -> (r: Vec<(u64, String)>)
        requires
            self.wf(),
        ensures
            pairs_view(r@).to_set() == matching(self@, query@),
            forall|i: int, j: int| 0 <= i < j < r@.len() ==> r@[i].0 != r@[j].0,
    {
        let cand = self.trie.search(query);
        let ghost live = self.trie@;
        let mut r: Vec<(u64, String)> = Vec::new();
        let mut j: usize = 0;
        while j < cand.len()
            invariant
                self.wf(),
                live == self.trie@,
                j <= cand@.len(),
                cand@.no_duplicates(),
                forall|a: int, b: int| 0 <= a < b < r@.len() ==> r@[a].0 != r@[b].0,
                forall|x: u64| #[trigger] cand@.contains(x) <==> live.contains_key(x) && is_subsequence(live[x], query@),
                forall|p: (u64, Seq<char>)| #[trigger] pairs_view(r@).contains(p)
                    <==> cand@.take(j as int).contains(p.0) && p.1 == live[p.0],
            decreases cand@.len() - j,
        {
            let id = cand[j];
            let ghost prev = r@;
            proof {
                assert(cand@.contains(id));
                assert(live.contains_key(id));
                assert(cand@.take(j + 1) =~= cand@.take(j as int).push(id));
            }
            match self.store.get(id) {
                Ok(v) => {
                    r.push((id, v.to_owned()));
                    proof {
                        assert forall|a: int, b: int| 0 <= a < b < r@.len() implies r@[a].0 != r@[b].0 by {
                            if b == prev.len() {
                                let pa = pairs_view(prev)[a];
                                assert(pairs_view(prev).contains(pa));
                                assert(cand@.take(j as int).contains(pa.0));
                                let t = choose|t: int| 0 <= t < j && #[trigger] cand@.take(j as int)[t] == pa.0;
                                assert(cand@[t] == pa.0);
                                assert(r@[a].0 == pa.0);
                            } else {
                                assert(r@[a] == prev[a] && r@[b] == prev[b]);
                            }
                        }
                        assert(pairs_view(r@) =~= pairs_view(prev).push((id, live[id])));
                        assert forall|p: (u64, Seq<char>)| #[trigger] pairs_view(r@).contains(p)
                            <==> cand@.take(j + 1).contains(p.0) && p.1 == live[p.0] by {
                            if pairs_view(r@).contains(p) {
                                let i = choose|i: int| 0 <= i < pairs_view(r@).len() && pairs_view(r@)[i] == p;
                                if i < prev.len() {
                                    assert(pairs_view(prev)[i] == p);
                                    assert(pairs_view(prev).contains(p));
                                    let t = choose|t: int| 0 <= t < j && #[trigger] cand@.take(j as int)[t] == p.0;
                                    assert(cand@.take(j + 1)[t] == p.0);
                                } else {
                                    assert(cand@.take(j + 1)[j as int] == p.0);
                                }
                            }
                            if cand@.take(j + 1).contains(p.0) && p.1 == live[p.0] {
                                let t = choose|t: int| 0 <= t < j + 1 && #[trigger] cand@.take(j + 1)[t] == p.0;
                                if t < j {
                                    assert(cand@.take(j as int)[t] == p.0);
                                    assert(pairs_view(prev).contains(p));
                                    let i = choose|i: int| 0 <= i < pairs_view(prev).len() && pairs_view(prev)[i] == p;
                                    assert(pairs_view(r@)[i] == p);
                                } else {
                                    assert(pairs_view(r@)[prev.len() as int] == p);
                                }
                            }
                        }
                    }
                },
                Err(_) => {
                    return r;
                },
            }
            j = j + 1;
        }
        proof {
            assert(cand@.take(cand@.len() as int) =~= cand@);
            lemma_trie_answer_is_linear_answer(self@, query@);
            assert(pairs_view(r@).to_set() =~= trie_answer(live, query@));
        }
        r
    }

    /// The same answer as `search`, found by scanning every live record, in
    /// increasing id order.
    pub fn linear_search(&self, query: &str) -> (r: Vec<(u64, String)>)
        ensures
            pairs_view(r@).to_set() == matching(self@, query@),
            forall|i: int, j: int| 0 <= i < j < r@.len() ==> r@[i].0 < r@[j].0,
    {
        linear_search(&self.store, query)
    }
}

} // verus!
