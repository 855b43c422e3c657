//! The subsequence predicate that every index agrees with.
use vstd::prelude::*;
use vstd::std_specs::iter::IteratorSpec;

verus! {

/// `idx` picks positions of `v`, strictly increasing, that spell `q`.
pub open spec fn is_embedding(v: Seq<char>, q: Seq<char>, idx: Seq<int>) -> bool {
    &&& idx.len() == q.len()
    &&& forall|i: int| 0 <= i < idx.len() ==> 0 <= #[trigger] idx[i] < v.len()
    &&& forall|i: int, j: int| 0 <= i < j < idx.len() ==> idx[i] < idx[j]
    &&& forall|i: int| 0 <= i < idx.len() ==> v[#[trigger] idx[i]] == q[i]
}

/// `q` occurs in `v` as a subsequence: some strictly increasing choice of
/// positions in `v` spells `q`.
pub open spec fn is_subsequence(v: Seq<char>, q: Seq<char>) -> bool {
    exists|idx: Seq<int>| is_embedding(v, q, idx)
}

/// The greedy left-to-right scan of `v` that advances through `q` whenever
/// the current character of `v` is the next character of `q`.
pub open spec fn greedy_match(v: Seq<char>, q: Seq<char>) -> bool
    decreases v.len(),
{
    if q.len() == 0 {
        true
    } else if v.len() == 0 {
        false
    } else if v[0] == q[0] {
        greedy_match(v.drop_first(), q.drop_first())
    } else {
        greedy_match(v.drop_first(), q)
    }
}

proof fn lemma_greedy_sound(v: Seq<char>, q: Seq<char>)
    requires
        greedy_match(v, q),
    ensures
        is_subsequence(v, q),
    decreases v.len(),
{
    if q.len() == 0 {
        assert(is_embedding(v, q, Seq::<int>::empty()));
    } else {
        let rest = v.drop_first();
        if v[0] == q[0] {
            lemma_greedy_sound(rest, q.drop_first());
            let idx0 = choose|idx: Seq<int>| is_embedding(rest, q.drop_first(), idx);
            let idx = seq![0int] + idx0.map_values(|k: int| k + 1);
            assert forall|i: int| 0 <= i < idx.len() implies v[#[trigger] idx[i]] == q[i] by {
                if i > 0 {
                    assert(idx[i] == idx0[i - 1] + 1);
                    assert(rest[idx0[i - 1]] == q.drop_first()[i - 1]);
                }
            }
            assert forall|i: int| 0 <= i < idx.len() implies 0 <= #[trigger] idx[i] < v.len() by {
                if i > 0 {
                    assert(idx[i] == idx0[i - 1] + 1);
                }
            }
            assert forall|i: int, j: int| 0 <= i < j < idx.len() implies idx[i] < idx[j] by {
                assert(idx[j] == idx0[j - 1] + 1);
                if i > 0 {
                    assert(idx[i] == idx0[i - 1] + 1);
                } else {
                    assert(0 <= idx0[j - 1]);
                }
            }
            assert(is_embedding(v, q, idx));
        } else {
            lemma_greedy_sound(rest, q);
            let idx0 = choose|idx: Seq<int>| is_embedding(rest, q, idx);
            let idx = idx0.map_values(|k: int| k + 1);
            assert forall|i: int| 0 <= i < idx.len() implies v[#[trigger] idx[i]] == q[i] by {
                assert(idx[i] == idx0[i] + 1);
                assert(rest[idx0[i]] == q[i]);
            }
            assert forall|i: int| 0 <= i < idx.len() implies 0 <= #[trigger] idx[i] < v.len() by {
                assert(idx[i] == idx0[i] + 1);
            }
            assert forall|i: int, j: int| 0 <= i < j < idx.len() implies idx[i] < idx[j] by {
                assert(idx[i] == idx0[i] + 1);
                assert(idx[j] == idx0[j] + 1);
            }
            assert(is_embedding(v, q, idx));
        }
    }
}

proof fn lemma_greedy_complete(v: Seq<char>, q: Seq<char>, idx: Seq<int>)
    requires
        is_embedding(v, q, idx),
    ensures
        greedy_match(v, q),
    decreases v.len(),
{
    if q.len() == 0 {
    } else if v.len() == 0 {
        assert(0 <= idx[0] < v.len());
    } else {
        let rest = v.drop_first();
        if v[0] == q[0] {
            let idx1 = idx.drop_first().map_values(|k: int| k - 1);
            assert forall|i: int| 0 <= i < idx1.len() implies 0 <= #[trigger] idx1[i] < rest.len() by {
                assert(idx[0] < idx[i + 1]);
                assert(0 <= idx[0]);
                assert(0 <= idx[i + 1] < v.len());
            }
            assert forall|i: int| 0 <= i < idx1.len() implies rest[#[trigger] idx1[i]] == q.drop_first()[i] by {
                assert(idx[0] < idx[i + 1]);
                assert(0 <= idx[0]);
                assert(v[idx[i + 1]] == q[i + 1]);
            }
            assert forall|i: int, j: int| 0 <= i < j < idx1.len() implies idx1[i] < idx1[j] by {
                assert(idx[i + 1] < idx[j + 1]);
            }
            lemma_greedy_complete(rest, q.drop_first(), idx1);
        } else {
            assert(v[idx[0]] == q[0]);
            assert(idx[0] != 0);
            let idx1 = idx.map_values(|k: int| k - 1);
            assert forall|i: int| 0 <= i < idx1.len() implies 0 <= #[trigger] idx1[i] < rest.len() by {
                if i > 0 {
                    assert(idx[0] < idx[i]);
                }
                assert(0 <= idx[0]);
                assert(0 <= idx[i] < v.len());
            }
            assert forall|i: int| 0 <= i < idx1.len() implies rest[#[trigger] idx1[i]] == q[i] by {
                if i > 0 {
                    assert(idx[0] < idx[i]);
                }
                assert(0 <= idx[0]);
                assert(v[idx[i]] == q[i]);
            }
            assert forall|i: int, j: int| 0 <= i < j < idx1.len() implies idx1[i] < idx1[j] by {
                assert(idx[i] < idx[j]);
            }
            lemma_greedy_complete(rest, q, idx1);
        }
    }
}

/// The greedy scan decides subsequence membership: it succeeds exactly when
/// some strictly increasing run of positions in `v` spells `q`.
pub proof fn lemma_greedy_iff_subsequence(v: Seq<char>, q: Seq<char>)
    ensures
        greedy_match(v, q) <==> is_subsequence(v, q),
{
    if greedy_match(v, q) {
        lemma_greedy_sound(v, q);
    }
    if is_subsequence(v, q) {
        let idx = choose|idx: Seq<int>| is_embedding(v, q, idx);
        lemma_greedy_complete(v, q, idx);
    }
}

/// One step of the greedy scan, from position `i` of `v` and position `k` of
/// `q`.
pub proof fn lemma_greedy_step(v: Seq<char>, q: Seq<char>, i: int, k: int)
    requires
        0 <= i < v.len(),
        0 <= k < q.len(),
    ensures
        greedy_match(v.skip(i), q.skip(k)) == if v[i] == q[k] {
            greedy_match(v.skip(i + 1), q.skip(k + 1))
        } else {
            greedy_match(v.skip(i + 1), q.skip(k))
        },
{
    let vs = v.skip(i);
    let qs = q.skip(k);
    assert(vs.drop_first() =~= v.skip(i + 1));
    assert(qs.drop_first() =~= q.skip(k + 1));
    assert(vs[0] == v[i]);
    assert(qs[0] == q[k]);
}

/// The characters of `s`, in order.
pub fn chars_of(s: &str) -> (r: Vec<char>)
    ensures
        r@ == s@,
{
    let mut r: Vec<char> = Vec::new();
    for c in it: s.chars()
        invariant
            it.seq() == s@,
            r@ == it.seq().take(it.index() as int),
    {
        r.push(c);
        assert(r@ =~= it.seq().take(it.index() + 1));
    }
    assert(r@ =~= s@);
    r
}

/// Decides whether `query` occurs in `value` as a subsequence, by one greedy
/// left-to-right scan of `value`.
pub fn subsequence_in(value: &[char], query: &[char]) -> (r: bool)
    ensures
        r == is_subsequence(value@, query@),
{
    proof {
        lemma_greedy_iff_subsequence(value@, query@);
        assert(value@.skip(0) =~= value@);
        assert(query@.skip(0) =~= query@);
    }
    let mut k: usize = 0;
    let mut i: usize = 0;
    while i < value.len() && k < query.len()
        invariant
            i <= value.len(),
            k <= query.len(),
            greedy_match(value@, query@) == greedy_match(value@.skip(i as int), query@.skip(k as int)),
        decreases value.len() - i,
    {
        proof {
            lemma_greedy_step(value@, query@, i as int, k as int);
        }
        if value[i] == query[k] {
            k = k + 1;
        }
        i = i + 1;
    }
    proof {
        if k < query.len() {
            assert(value@.skip(i as int).len() == 0);
        }
    }
    k == query.len()
}

/// Whether `query` occurs in `value` as an ordered, not necessarily
/// contiguous, subsequence of characters. The empty query occurs in every
/// value.
pub fn contains_subsequence(value: &str, query: &str) -> (r: bool)
    ensures
        r == is_subsequence(value@, query@),
{
    let v = chars_of(value);
    let q = chars_of(query);
    subsequence_in(v.as_slice(), q.as_slice())
}

/// The empty query is a subsequence of every value, the empty value included.
pub proof fn lemma_empty_query_matches(v: Seq<char>)
    ensures
        is_subsequence(v, Seq::<char>::empty()),
{
    assert(is_embedding(v, Seq::<char>::empty(), Seq::<int>::empty()));
}

/// A query holding a character that `v` lacks is no subsequence of `v`.
pub proof fn lemma_missing_char_no_match(v: Seq<char>, q: Seq<char>, i: int)
    requires
        0 <= i < q.len(),
        !v.contains(q[i]),
    ensures
        !is_subsequence(v, q),
{
    if is_subsequence(v, q) {
        let idx = choose|idx: Seq<int>| is_embedding(v, q, idx);
        assert(v[idx[i]] == q[i]);
    }
}

/// Every value holds itself as a subsequence.
pub proof fn lemma_subsequence_reflexive(v: Seq<char>)
    ensures
        is_subsequence(v, v),
{
    let idx = Seq::new(v.len(), |i: int| i);
    assert(is_embedding(v, v, idx));
}

/// Taking one character out of a subsequence of `v` leaves a subsequence of
/// `v`.
pub proof fn lemma_remove_keeps_subsequence(v: Seq<char>, q: Seq<char>, i: int)
    requires
        is_subsequence(v, q),
        0 <= i < q.len(),
    ensures
        is_subsequence(v, q.remove(i)),
{
    let idx = choose|idx: Seq<int>| is_embedding(v, q, idx);
    let idx1 = idx.remove(i);
    let q1 = q.remove(i);
    assert forall|a: int| 0 <= a < idx1.len() implies 0 <= #[trigger] idx1[a] < v.len() by {
        if a < i { assert(idx1[a] == idx[a]); } else { assert(idx1[a] == idx[a + 1]); }
    }
    assert forall|a: int| 0 <= a < idx1.len() implies v[#[trigger] idx1[a]] == q1[a] by {
        if a < i { assert(idx1[a] == idx[a]); } else { assert(idx1[a] == idx[a + 1]); }
    }
    assert forall|a: int, b: int| 0 <= a < b < idx1.len() implies idx1[a] < idx1[b] by {
        let a1 = if a < i { a } else { a + 1 };
        let b1 = if b < i { b } else { b + 1 };
        assert(idx1[a] == idx[a1]);
        assert(idx1[b] == idx[b1]);
    }
    assert(is_embedding(v, q1, idx1));
}

} // verus!
