//! The baseline index: a scan of every live record through the matcher.
//! Its answer is the reference that any accelerated index must reproduce.
use vstd::prelude::*;
use crate::matcher::{chars_of, is_subsequence, subsequence_in};
use crate::store::RecordStore;

verus! {

/// Whether `(id, v)` is a live record of `recs` whose value holds `q` as a
/// subsequence.
pub open spec fn is_match(recs: Seq<(Seq<char>, bool)>, q: Seq<char>, id: u64, v: Seq<char>) -> bool {
    &&& id < recs.len()
    &&& recs[id as int].1
    &&& recs[id as int].0 == v
    &&& is_subsequence(v, q)
}

/// The answer to a search for `q` over the records `recs`: every live record
/// whose value contains `q` as a subsequence, as `(id, value)` pairs.
pub open spec fn matching(recs: Seq<(Seq<char>, bool)>, q: Seq<char>) -> Set<(u64, Seq<char>)> {
    Set::new(|p: (u64, Seq<char>)| is_match(recs, q, p.0, p.1))
}

/// Search results seen as `(id, characters)` pairs.
pub open spec fn pairs_view(r: Seq<(u64, String)>) -> Seq<(u64, Seq<char>)> {
    r.map_values(|p: (u64, String)| (p.0, p.1@))
}

/// The live records of `store` whose value contains `query` as a
/// subsequence, in increasing id order.
pub fn linear_search(store: &RecordStore, query: &str) -> (r: Vec<(u64, String)>)
    ensures
        pairs_view(r@).to_set() == matching(store@, query@),
        forall|i: int, j: int| 0 <= i < j < r@.len() ==> r@[i].0 < r@[j].0,
{
    let q = chars_of(query);
    let n = store.len();
    let mut r: Vec<(u64, String)> = Vec::new();
    let mut id: u64 = 0;
    while id < n
        invariant
            n == store@.len(),
            q@ == query@,
            id <= n,
            forall|i: int, j: int| 0 <= i < j < r@.len() ==> r@[i].0 < r@[j].0,
            forall|i: int| 0 <= i < r@.len() ==> r@[i].0 < id,
            forall|p: (u64, Seq<char>)|
                pairs_view(r@).contains(p) <==> (p.0 < id && is_match(store@, query@, p.0, p.1)),
        decreases n - id,
    {
        let ghost before = r@;
        if store.is_alive(id) {
            let value = match store.get(id) {
                Ok(v) => v,
                Err(_) => {
                    return r;
                },
            };
            let v = chars_of(value);
            if subsequence_in(v.as_slice(), q.as_slice()) {
                r.push((id, value.to_owned()));
                proof {
                    assert(pairs_view(r@) =~= pairs_view(before).push((id, value@)));
                }
            }
        }
        proof {
            assert forall|p: (u64, Seq<char>)|
                pairs_view(r@).contains(p) <==> (p.0 < id + 1 && is_match(store@, query@, p.0, p.1)) by {
                if pairs_view(r@).contains(p) {
                    let k = choose|k: int| 0 <= k < pairs_view(r@).len() && pairs_view(r@)[k] == p;
                    assert(r@[k].0 == p.0);
                    if k < before.len() {
                        assert(pairs_view(before)[k] == p);
                        assert(pairs_view(before).contains(p));
                    }
                }
                if p.0 < id && is_match(store@, query@, p.0, p.1) {
                    assert(pairs_view(before).contains(p));
                    let k = choose|k: int| 0 <= k < pairs_view(before).len() && pairs_view(before)[k] == p;
                    assert(pairs_view(r@)[k] == p);
                }
                if p.0 == id && is_match(store@, query@, p.0, p.1) {
                    assert(pairs_view(r@)[r@.len() - 1] == p);
                }
            }
        }
        id = id + 1;
    }
    proof {
        assert(pairs_view(r@).to_set() =~= matching(store@, query@));
    }
    r
}

} // verus!
