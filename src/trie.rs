//! A prefix trie over record values whose every node carries the ids of the
//! indexed records whose value passes through it.
//!
//! Nodes live in an arena and refer to their children by index. Each node
//! stands for one prefix (its path), and holds exactly the ids of the indexed
//! records whose value begins with that prefix; the root stands for the empty
//! prefix and so holds every indexed id.
use vstd::prelude::*;
use std::collections::HashSet;
use crate::matcher::{chars_of, greedy_match, is_subsequence, lemma_greedy_iff_subsequence, lemma_greedy_step};

verus! {

broadcast use vstd::std_specs::hash::group_hash_axioms;

/// `p` is a prefix of `s`.
pub open spec fn is_prefix(p: Seq<char>, s: Seq<char>) -> bool {
    p.len() <= s.len() && s.take(p.len() as int) == p
}

/// One node of the arena.
pub struct TrieNode {
    children: Vec<(char, usize)>,
    ids: HashSet<u64>,
    path: Ghost<Seq<char>>,
}

/// The trie: an arena of nodes, the root at position 0.
pub struct TrieIndex {
    nodes: Vec<TrieNode>,
    /// The node that stands for each prefix present in the trie.
    node_of: Ghost<Map<Seq<char>, usize>>,
    /// The indexed records, by id.
    entries: Ghost<Map<u64, Seq<char>>>,
}

/// The arena's shape: each node stands for a distinct prefix, the root for
/// the empty one, each child for its parent's prefix and one more character,
/// and every present prefix is reachable from its parent.
spec fn shape_wf(nodes: Seq<TrieNode>, node_of: Map<Seq<char>, usize>) -> bool {
    &&& nodes.len() >= 1
    &&& nodes[0].path@ == Seq::<char>::empty()
    &&& forall|n: int| 0 <= n < nodes.len() ==> (#[trigger] nodes[n].path@).len() < nodes.len()
    &&& forall|n: int| 0 <= n < nodes.len() ==> #[trigger] node_of.contains_key(nodes[n].path@)
        && node_of[nodes[n].path@] == n
    &&& forall|p: Seq<char>| #[trigger] node_of.contains_key(p) ==> node_of[p] < nodes.len()
        && nodes[node_of[p] as int].path@ == p
    &&& forall|n: int, k: int| 0 <= n < nodes.len() && 0 <= k < nodes[n].children@.len()
        ==> #[trigger] nodes[n].children@[k].1 < nodes.len()
        && nodes[nodes[n].children@[k].1 as int].path@ == nodes[n].path@.push(nodes[n].children@[k].0)
    &&& forall|n: int, i: int, j: int| 0 <= n < nodes.len() && 0 <= i < j < nodes[n].children@.len()
        ==> #[trigger] nodes[n].children@[i].0 != #[trigger] nodes[n].children@[j].0
    &&& forall|p: Seq<char>| #[trigger] node_of.contains_key(p) && p.len() > 0
        ==> node_of.contains_key(p.drop_last())
        && exists|k: int| 0 <= k < nodes[node_of[p.drop_last()] as int].children@.len()
            && #[trigger] nodes[node_of[p.drop_last()] as int].children@[k] == (p.last(), node_of[p])
}

/// Each node holds, as a set keyed by id, exactly the ids of the entries whose
/// value begins with the node's prefix.
spec fn ids_wf(nodes: Seq<TrieNode>, entries: Map<u64, Seq<char>>) -> bool {
    &&& forall|n: int, x: u64| 0 <= n < nodes.len() ==> (#[trigger] nodes[n].ids@.contains(x)
        <==> entries.contains_key(x) && is_prefix(nodes[n].path@, entries[x]))
}

/// Every prefix of every entry has a node.
spec fn complete(node_of: Map<Seq<char>, usize>, entries: Map<u64, Seq<char>>) -> bool {
    forall|x: u64, j: int| entries.contains_key(x) && 0 <= j <= entries[x].len()
        ==> #[trigger] node_of.contains_key(#[trigger] entries[x].take(j))
}

/// The shape depends on the paths and the children alone, not on the ids.
proof fn lemma_shape_keeps(a: Seq<TrieNode>, b: Seq<TrieNode>, node_of: Map<Seq<char>, usize>)
    requires
        shape_wf(a, node_of),
        a.len() == b.len(),
        forall|j: int| 0 <= j < a.len() ==> (#[trigger] b[j]).path == a[j].path && b[j].children == a[j].children,
    ensures
        shape_wf(b, node_of),
{
    assert forall|n: int| 0 <= n < b.len() implies #[trigger] node_of.contains_key(b[n].path@)
        && node_of[b[n].path@] == n by {
        assert(b[n].path == a[n].path);
        assert(node_of.contains_key(a[n].path@));
    }
    assert forall|p: Seq<char>| #[trigger] node_of.contains_key(p) implies node_of[p] < b.len()
        && b[node_of[p] as int].path@ == p by {
        assert(b[node_of[p] as int].path == a[node_of[p] as int].path);
    }
    assert forall|n: int| 0 <= n < b.len() implies (#[trigger] b[n].path@).len() < b.len() by {
        assert(b[n].path == a[n].path);
    }
    assert forall|n: int, k: int| 0 <= n < b.len() && 0 <= k < b[n].children@.len()
        implies #[trigger] b[n].children@[k].1 < b.len()
        && b[b[n].children@[k].1 as int].path@ == b[n].path@.push(b[n].children@[k].0) by {
        assert(b[n].children == a[n].children);
        assert(a[n].children@[k].1 < a.len());
        assert(b[b[n].children@[k].1 as int].path == a[a[n].children@[k].1 as int].path);
        assert(b[n].path == a[n].path);
    }
    assert forall|p: Seq<char>| #[trigger] node_of.contains_key(p) && p.len() > 0
        implies node_of.contains_key(p.drop_last())
        && exists|k: int| 0 <= k < b[node_of[p.drop_last()] as int].children@.len()
            && #[trigger] b[node_of[p.drop_last()] as int].children@[k] == (p.last(), node_of[p]) by {
        assert(node_of.contains_key(p.drop_last()));
        let pn = node_of[p.drop_last()] as int;
        assert(b[pn].children == a[pn].children);
        let k = choose|k: int| 0 <= k < a[pn].children@.len()
            && #[trigger] a[pn].children@[k] == (p.last(), node_of[p]);
        assert(b[pn].children@[k] == (p.last(), node_of[p]));
    }
    assert(b[0].path == a[0].path);
}

/// `x` is an entry under the prefix `p` whose value, after `p`, holds `q` as
/// a subsequence.
spec fn subtree_matches(e: Map<u64, Seq<char>>, p: Seq<char>, q: Seq<char>, x: u64) -> bool {
    e.contains_key(x) && is_prefix(p, e[x]) && greedy_match(e[x].skip(p.len() as int), q)
}

/// Going down from the prefix `pn` along `c`, with the greedy scan of `q` at
/// position `k` advanced past `c` when `c` is the next character of `q`.
proof fn lemma_child_step(e: Map<u64, Seq<char>>, pn: Seq<char>, c: char, q: Seq<char>, k: int, x: u64)
    requires
        e.contains_key(x),
        0 <= k < q.len(),
    ensures
        subtree_matches(e, pn.push(c), q.skip(if c == q[k] { k + 1 } else { k }), x)
            <==> subtree_matches(e, pn, q.skip(k), x) && e[x].len() > pn.len() && e[x][pn.len() as int] == c,
{
    let v = e[x];
    let l = pn.len() as int;
    let pm = pn.push(c);
    if v.len() > l {
        lemma_greedy_step(v, q, l, k);
        if is_prefix(pm, v) {
            assert(v.take(l) =~= v.take(l + 1).drop_last());
            assert(pm.drop_last() =~= pn);
            assert(v.take(l + 1)[l] == v[l]);
            assert(pm[l] == c);
        }
        if is_prefix(pn, v) && v[l] == c {
            assert(v.take(l + 1) =~= v.take(l).push(v[l]));
        }
    }
}

impl TrieIndex {
    /// The indexed records, by id.
    pub closed spec fn view(&self) -> Map<u64, Seq<char>> {
        self.entries@
    }

    pub closed spec fn wf(&self) -> bool {
        &&& shape_wf(self.nodes@, self.node_of@)
        &&& ids_wf(self.nodes@, self.entries@)
        &&& complete(self.node_of@, self.entries@)
    }

    /// A trie with no records: the root alone.
    pub fn new() -> (t: Self)
        ensures
            t.wf(),
            t@ == Map::<u64, Seq<char>>::empty(),
    {
        let root = TrieNode { children: Vec::new(), ids: HashSet::new(), path: Ghost(Seq::empty()) };
        let mut nodes: Vec<TrieNode> = Vec::new();
        nodes.push(root);
        let t = TrieIndex {
            nodes,
            node_of: Ghost(Map::empty().insert(Seq::<char>::empty(), 0usize)),
            entries: Ghost(Map::empty()),
        };
        assert(t.nodes@[0].path@ == Seq::<char>::empty());
        t
    }

    /// The child of node `n` along character `c`, if there is one.
    fn find_child(&self, n: usize, c: char) -> (r: Option<usize>)
        requires
            n < self.nodes@.len(),
        ensures
            r matches Some(m) ==> exists|k: int| 0 <= k < self.nodes@[n as int].children@.len()
                && #[trigger] self.nodes@[n as int].children@[k] == (c, m),
            r is None ==> forall|k: int| 0 <= k < self.nodes@[n as int].children@.len()
                ==> #[trigger] self.nodes@[n as int].children@[k].0 != c,
    {
        let children = &self.nodes[n].children;
        let mut k: usize = 0;
        while k < children.len()
            invariant
                children@ == self.nodes@[n as int].children@,
                k <= children@.len(),
                forall|j: int| 0 <= j < k ==> #[trigger] children@[j].0 != c,
            decreases children@.len() - k,
        {
            if children[k].0 == c {
                assert(children@[k as int] == (c, children@[k as int].1));
                return Some(children[k].1);
            }
            k = k + 1;
        }
        None
    }

    /// Appends a node for the prefix of node `n` followed by `c`, which is
    /// not present yet, as a new child of `n`.
    fn add_child(&mut self, n: usize, c: char)
        requires
            shape_wf(old(self).nodes@, old(self).node_of@),
            n < old(self).nodes@.len(),
            !old(self).node_of@.contains_key(old(self).nodes@[n as int].path@.push(c)),
        ensures
            shape_wf(final(self).nodes@, final(self).node_of@),
            final(self).entries == old(self).entries,
            final(self).nodes@.len() == old(self).nodes@.len() + 1,
            final(self).node_of@ == old(self).node_of@.insert(
                old(self).nodes@[n as int].path@.push(c),
                old(self).nodes@.len() as usize,
            ),
            final(self).nodes@.last().path@ == old(self).nodes@[n as int].path@.push(c),
            final(self).nodes@.last().ids@ == Set::<u64>::empty(),
            forall|j: int| 0 <= j < old(self).nodes@.len() ==> (#[trigger] final(self).nodes@[j]).ids
                == old(self).nodes@[j].ids && final(self).nodes@[j].path == old(self).nodes@[j].path,
    {
        let m = self.nodes.len();
        let ghost next_path = self.nodes@[n as int].path@.push(c);
        let ghost old_nodes = self.nodes@;
        let ghost old_map = self.node_of@;
        self.nodes.push(TrieNode { children: Vec::new(), ids: HashSet::new(), path: Ghost(next_path) });
        self.nodes[n].children.push((c, m));
        self.node_of = Ghost(self.node_of@.insert(next_path, m));
        proof {
            let nodes = self.nodes@;
            let map = self.node_of@;
            assert(nodes.len() == old_nodes.len() + 1);
            assert forall|j: int| 0 <= j < old_nodes.len() implies (#[trigger] nodes[j]).ids == old_nodes[j].ids
                && nodes[j].path == old_nodes[j].path && (j != n ==> nodes[j].children == old_nodes[j].children) by {
            }
            assert(nodes[n as int].children@ == old_nodes[n as int].children@.push((c, m)));
            assert forall|j: int| 0 <= j < nodes.len() implies #[trigger] map.contains_key(nodes[j].path@)
                && map[nodes[j].path@] == j by {
                if j < old_nodes.len() {
                    assert(old_map.contains_key(old_nodes[j].path@));
                }
            }
            assert forall|t: int, i: int, j: int| 0 <= t < nodes.len() && 0 <= i < j < nodes[t].children@.len()
                implies #[trigger] nodes[t].children@[i].0 != #[trigger] nodes[t].children@[j].0 by {
                if t == n && j == old_nodes[t].children@.len() {
                    let ch = old_nodes[t].children@[i];
                    assert(nodes[t].children@[i] == ch);
                    assert(old_nodes[ch.1 as int].path@ == old_nodes[t].path@.push(ch.0));
                    assert(old_map.contains_key(old_nodes[ch.1 as int].path@));
                } else if t < old_nodes.len() {
                    assert(nodes[t].children@[i] == old_nodes[t].children@[i]);
                    assert(nodes[t].children@[j] == old_nodes[t].children@[j]);
                }
            }
            assert forall|j: int| 0 <= j < nodes.len() implies (#[trigger] nodes[j].path@).len() < nodes.len() by {
                if j < old_nodes.len() {
                    assert(old_nodes[j].path@.len() < old_nodes.len());
                } else {
                    assert(old_nodes[n as int].path@.len() < old_nodes.len());
                }
            }
            assert forall|p: Seq<char>| #[trigger] map.contains_key(p) implies map[p] < nodes.len()
                && nodes[map[p] as int].path@ == p by {
                if p != next_path {
                    assert(old_map.contains_key(p));
                }
            }
            assert forall|j: int, k: int| 0 <= j < nodes.len() && 0 <= k < nodes[j].children@.len()
                implies #[trigger] nodes[j].children@[k].1 < nodes.len()
                && nodes[nodes[j].children@[k].1 as int].path@ == nodes[j].path@.push(nodes[j].children@[k].0) by {
                if j == n && k == old_nodes[j].children@.len() {
                } else {
                    assert(j < old_nodes.len());
                    assert(nodes[j].children@[k] == old_nodes[j].children@[k]);
                    let t = old_nodes[j].children@[k].1 as int;
                    assert(nodes[t].path == old_nodes[t].path);
                }
            }
            assert forall|p: Seq<char>| #[trigger] map.contains_key(p) && p.len() > 0
                implies map.contains_key(p.drop_last())
                && exists|k: int| 0 <= k < nodes[map[p.drop_last()] as int].children@.len()
                    && #[trigger] nodes[map[p.drop_last()] as int].children@[k] == (p.last(), map[p]) by {
                if p == next_path {
                    assert(p.drop_last() =~= old_nodes[n as int].path@);
                    assert(old_map.contains_key(old_nodes[n as int].path@));
                    assert(old_map[old_nodes[n as int].path@] == n);
                    assert(map.contains_key(p.drop_last()));
                    assert(map[p.drop_last()] == n);
                    assert(p.last() == c);
                    assert(map[p] == m);
                    let k = old_nodes[n as int].children@.len() as int;
                    assert(nodes[n as int].children@[k] == (p.last(), map[p]));
                    assert(0 <= k < nodes[map[p.drop_last()] as int].children@.len());
                } else {
                    assert(old_map.contains_key(p));
                    let q = p.drop_last();
                    assert(old_map.contains_key(q));
                    assert(q != next_path) by {
                        if q == next_path {
                            assert(old_map.contains_key(q));
                        }
                    }
                    assert(map.contains_key(q));
                    assert(map[q] == old_map[q]);
                    assert(map[p] == old_map[p]);
                    let pn = old_map[q] as int;
                    assert(pn < old_nodes.len());
                    let k = choose|k: int| 0 <= k < old_nodes[pn].children@.len()
                        && #[trigger] old_nodes[pn].children@[k] == (p.last(), old_map[p]);
                    if pn == n {
                        assert(nodes[pn].children@[k] == old_nodes[pn].children@[k]);
                    } else {
                        assert(nodes[pn].children == old_nodes[pn].children);
                    }
                    assert(nodes[pn].children@[k] == (p.last(), map[p]));
                    assert(0 <= k < nodes[map[p.drop_last()] as int].children@.len());
                }
            }
        }
    }

    /// Indexes the record `id` with value `value`: walks `value` from the
    /// root, creating each missing node, and adds `id` to every node on the
    /// way, the root and the last node included.
    pub fn insert(&mut self, id: u64, value: &str)
        requires
            old(self).wf(),
            !old(self)@.contains_key(id),
        ensures
            final(self).wf(),
            final(self)@ == old(self)@.insert(id, value@),
    {
        let v = chars_of(value);
        let ghost e = self.entries@;
        proof {
            assert(!self.nodes@[0].ids@.contains(id));
        }
        self.nodes[0].ids.insert(id);
        proof {
            assert(v@.take(0) =~= Seq::<char>::empty());
            assert forall|n: int, x: u64| 0 <= n < self.nodes@.len() implies (#[trigger] self.nodes@[n].ids@.contains(x)
                <==> (e.contains_key(x) && is_prefix(self.nodes@[n].path@, e[x]))
                    || (x == id && is_prefix(self.nodes@[n].path@, v@.take(0)))) by {
                if n == 0 {
                    assert(self.nodes@[0].path == old(self).nodes@[0].path);
                    assert(v@.take(0).take(0) =~= Seq::<char>::empty());
                    assert(old(self).nodes@[0].ids@.insert(id) == self.nodes@[0].ids@);
                    assert(is_prefix(self.nodes@[n].path@, v@.take(0)));
                    if e.contains_key(x) {
                        assert(e[x].take(0) =~= Seq::<char>::empty());
                    }
                } else {
                    assert(self.nodes@[n] == old(self).nodes@[n]);
                    assert(old(self).node_of@.contains_key(old(self).nodes@[n].path@));
                    assert(old(self).node_of@.contains_key(old(self).nodes@[0].path@));
                    assert(self.nodes@[n].path@ != Seq::<char>::empty());
                    if self.nodes@[n].path@.len() == 0 {
                        assert(self.nodes@[n].path@ =~= Seq::<char>::empty());
                    }
                }
            }
            lemma_shape_keeps(old(self).nodes@, self.nodes@, self.node_of@);
        }
        let mut cur: usize = 0;
        let mut i: usize = 0;
        while i < v.len()
            invariant
                v@ == value@,
                i <= v@.len(),
                !e.contains_key(id),
                self.entries@ == e,
                shape_wf(self.nodes@, self.node_of@),
                complete(self.node_of@, e),
                cur < self.nodes@.len(),
                self.nodes@[cur as int].path@ == v@.take(i as int),
                forall|j: int| 0 <= j <= i ==> #[trigger] self.node_of@.contains_key(v@.take(j)),
                forall|n: int, x: u64| 0 <= n < self.nodes@.len() ==> (#[trigger] self.nodes@[n].ids@.contains(x)
                    <==> (e.contains_key(x) && is_prefix(self.nodes@[n].path@, e[x]))
                        || (x == id && is_prefix(self.nodes@[n].path@, v@.take(i as int)))),
            decreases v@.len() - i,
        {
            let c = v[i];
            let ghost next_path = v@.take(i + 1);
            assert(next_path =~= v@.take(i as int).push(c));
            let ghost old_len = self.nodes@.len();
            let ghost old_map = self.node_of@;
            let next = match self.find_child(cur, c) {
                Some(m) => {
                    proof {
                        let k = choose|k: int| 0 <= k < self.nodes@[cur as int].children@.len()
                            && #[trigger] self.nodes@[cur as int].children@[k] == (c, m);
                        assert(self.nodes@[cur as int].children@[k].1 < self.nodes@.len());
                    }
                    m
                },
                None => {
                    let m = self.nodes.len();
                    proof {
                        if self.node_of@.contains_key(next_path) {
                            assert(next_path.drop_last() =~= v@.take(i as int));
                            let k = choose|k: int| 0 <= k < self.nodes@[self.node_of@[next_path.drop_last()] as int].children@.len()
                                && #[trigger] self.nodes@[self.node_of@[next_path.drop_last()] as int].children@[k] == (next_path.last(), self.node_of@[next_path]);
                            assert(self.nodes@[cur as int].children@[k].0 == c);
                        }
                    }
                    self.add_child(cur, c);
                    m
                },
            };
            proof {
                let nodes = self.nodes@;
                assert(next < nodes.len());
                assert(nodes[next as int].path@ == next_path);
                assert forall|n: int, x: u64| 0 <= n < nodes.len() implies (#[trigger] nodes[n].ids@.contains(x)
                    <==> (e.contains_key(x) && is_prefix(nodes[n].path@, e[x]))
                        || (x == id && is_prefix(nodes[n].path@, v@.take(i as int)))) by {
                    if n >= old_len {
                        assert(n == next);
                        if e.contains_key(x) && is_prefix(next_path, e[x]) {
                            assert(e[x].take(i + 1) == next_path);
                            assert(old_map.contains_key(e[x].take(i + 1)));
                        }
                    }
                }
                assert(!nodes[next as int].ids@.contains(id));
            }
            let ghost before = self.nodes@;
            self.nodes[next].ids.insert(id);
            proof {
                let nodes = self.nodes@;
                lemma_shape_keeps(before, nodes, self.node_of@);
                assert(next_path =~= v@.take(i + 1));
                assert forall|j: int| 0 <= j <= i + 1 implies #[trigger] self.node_of@.contains_key(v@.take(j)) by {
                    if j == i + 1 {
                        assert(self.node_of@.contains_key(nodes[next as int].path@));
                    }
                }
                assert forall|n: int, x: u64| 0 <= n < nodes.len() implies (#[trigger] nodes[n].ids@.contains(x)
                    <==> (e.contains_key(x) && is_prefix(nodes[n].path@, e[x]))
                        || (x == id && is_prefix(nodes[n].path@, v@.take(i + 1)))) by {
                    if n == next {
                        assert(nodes[n].ids@ == before[n].ids@.insert(id));
                        assert(next_path.take(next_path.len() as int) =~= next_path);
                        assert(is_prefix(nodes[n].path@, v@.take(i + 1)));
                    } else {
                        assert(nodes[n] == before[n]);
                        let pn = nodes[n].path@;
                        if is_prefix(pn, v@.take(i + 1)) {
                            if pn.len() == i + 1 {
                                assert(pn =~= next_path);
                                assert(self.node_of@.contains_key(nodes[n].path@));
                                assert(self.node_of@.contains_key(nodes[next as int].path@));
                                assert(self.node_of@[pn] == n);
                            } else {
                                assert(v@.take(i as int).take(pn.len() as int) =~= v@.take(i + 1).take(pn.len() as int));
                            }
                        }
                        if is_prefix(pn, v@.take(i as int)) {
                            assert(v@.take(i as int).take(pn.len() as int) =~= v@.take(i + 1).take(pn.len() as int));
                        }
                    }
                }
            }
            cur = next;
            i = i + 1;
        }
        self.entries = Ghost(e.insert(id, v@));
        proof {
            let nodes = self.nodes@;
            let e2 = e.insert(id, v@);
            assert(v@.take(v@.len() as int) =~= v@);
            assert forall|n: int, x: u64| 0 <= n < nodes.len() implies (#[trigger] nodes[n].ids@.contains(x)
                <==> e2.contains_key(x) && is_prefix(nodes[n].path@, e2[x])) by {
                if x != id {
                    assert(e2[x] == e[x]);
                }
            }
            assert forall|x: u64, j: int| e2.contains_key(x) && 0 <= j <= e2[x].len()
                implies #[trigger] self.node_of@.contains_key(#[trigger] e2[x].take(j)) by {
                if x == id {
                    assert(self.node_of@.contains_key(v@.take(j)));
                } else {
                    assert(e2[x] == e[x]);
                }
            }
            assert(self@ =~= old(self)@.insert(id, value@));
        }
    }

    /// Removes `id` from the node `n`.
    fn remove_id(&mut self, n: usize, id: u64)
        requires
            n < old(self).nodes@.len(),
        ensures
            final(self).nodes@.len() == old(self).nodes@.len(),
            final(self).node_of == old(self).node_of,
            final(self).entries == old(self).entries,
            forall|j: int| 0 <= j < old(self).nodes@.len() ==> (#[trigger] final(self).nodes@[j]).path
                == old(self).nodes@[j].path && final(self).nodes@[j].children == old(self).nodes@[j].children,
            forall|j: int| 0 <= j < old(self).nodes@.len() && j != n ==> (#[trigger] final(self).nodes@[j]).ids
                == old(self).nodes@[j].ids,
            final(self).nodes@[n as int].ids@ == old(self).nodes@[n as int].ids@.remove(id),
    {
        self.nodes[n].ids.remove(&id);
    }

    /// Removes the record `id`, whose value is `value`, from the index: walks
    /// the same path as its insertion did and takes `id` out of every node on
    /// it. Nodes are kept, so every path present stays present.
    pub fn delete(&mut self, id: u64, value: &str)
        requires
            old(self).wf(),
            old(self)@.contains_key(id),
            old(self)@[id] == value@,
        ensures
            final(self).wf(),
            final(self)@ == old(self)@.remove(id),
    {
        let v = chars_of(value);
        let ghost e = self.entries@;
        let ghost e2 = e.remove(id);
        proof {
            assert(self.node_of@.contains_key(v@.take(0)));
        }
        let ghost before0 = self.nodes@;
        self.remove_id(0, id);
        proof {
            lemma_shape_keeps(before0, self.nodes@, self.node_of@);
            assert(v@.take(0) =~= Seq::<char>::empty());
            assert forall|n: int, x: u64| 0 <= n < self.nodes@.len() implies (#[trigger] self.nodes@[n].ids@.contains(x)
                <==> (e2.contains_key(x) && is_prefix(self.nodes@[n].path@, e2[x]))
                    || (x == id && is_prefix(self.nodes@[n].path@, v@) && !is_prefix(self.nodes@[n].path@, v@.take(0)))) by {
                assert(before0[n].ids@.contains(x) <==> e.contains_key(x) && is_prefix(before0[n].path@, e[x]));
                if x != id {
                    assert(e2.contains_key(x) == e.contains_key(x));
                    if e.contains_key(x) {
                        assert(e2[x] == e[x]);
                    }
                }
                if n == 0 {
                    assert(v@.take(0).take(0) =~= Seq::<char>::empty());
                }
                if n != 0 && x == id && is_prefix(self.nodes@[n].path@, v@.take(0)) {
                    assert(self.nodes@[n].path@ =~= Seq::<char>::empty());
                    assert(self.node_of@.contains_key(self.nodes@[n].path@));
                    assert(self.node_of@.contains_key(self.nodes@[0].path@));
                }
            }
        }
        let mut cur: usize = 0;
        let mut i: usize = 0;
        while i < v.len()
            invariant
                v@ == value@,
                i <= v@.len(),
                e.contains_key(id),
                e[id] == v@,
                e2 == e.remove(id),
                self.entries@ == e,
                shape_wf(self.nodes@, self.node_of@),
                complete(self.node_of@, e),
                cur < self.nodes@.len(),
                self.nodes@[cur as int].path@ == v@.take(i as int),
                forall|n: int, x: u64| 0 <= n < self.nodes@.len() ==> (#[trigger] self.nodes@[n].ids@.contains(x)
                    <==> (e2.contains_key(x) && is_prefix(self.nodes@[n].path@, e2[x]))
                        || (x == id && is_prefix(self.nodes@[n].path@, v@) && !is_prefix(self.nodes@[n].path@, v@.take(i as int)))),
            decreases v@.len() - i,
        {
            let c = v[i];
            let ghost next_path = v@.take(i + 1);
            proof {
                assert(next_path =~= v@.take(i as int).push(c));
                assert(e[id].take(i + 1) == next_path);
                assert(self.node_of@.contains_key(next_path));
                assert(next_path.drop_last() =~= v@.take(i as int));
                assert(self.node_of@.contains_key(self.nodes@[cur as int].path@));
            }
            let next = match self.find_child(cur, c) {
                Some(m) => {
                    proof {
                        let k = choose|k: int| 0 <= k < self.nodes@[cur as int].children@.len()
                            && #[trigger] self.nodes@[cur as int].children@[k] == (c, m);
                        assert(self.nodes@[cur as int].children@[k].1 < self.nodes@.len());
                    }
                    m
                },
                None => {
                    proof {
                        let k = choose|k: int| 0 <= k < self.nodes@[self.node_of@[next_path.drop_last()] as int].children@.len()
                            && #[trigger] self.nodes@[self.node_of@[next_path.drop_last()] as int].children@[k] == (next_path.last(), self.node_of@[next_path]);
                        assert(self.nodes@[cur as int].children@[k].0 == c);
                    }
                    return;
                },
            };
            let ghost before = self.nodes@;
            self.remove_id(next, id);
            proof {
                let nodes = self.nodes@;
                lemma_shape_keeps(before, nodes, self.node_of@);
                assert(nodes[next as int].path@ == next_path);
                assert forall|n: int, x: u64| 0 <= n < nodes.len() implies (#[trigger] nodes[n].ids@.contains(x)
                    <==> (e2.contains_key(x) && is_prefix(nodes[n].path@, e2[x]))
                        || (x == id && is_prefix(nodes[n].path@, v@) && !is_prefix(nodes[n].path@, v@.take(i + 1)))) by {
                    let pn = nodes[n].path@;
                    assert(before[n].ids@.contains(x) <==> (e2.contains_key(x) && is_prefix(pn, e2[x]))
                        || (x == id && is_prefix(pn, v@) && !is_prefix(pn, v@.take(i as int))));
                    if x == id {
                        assert(!e2.contains_key(x));
                    }
                    if n == next {
                        assert(next_path.take(next_path.len() as int) =~= next_path);
                        assert(is_prefix(pn, v@.take(i + 1)));
                    } else {
                        assert(nodes[n] == before[n]);
                        if is_prefix(pn, v@.take(i + 1)) {
                            if pn.len() == i + 1 {
                                assert(pn =~= next_path);
                                assert(self.node_of@.contains_key(nodes[n].path@));
                                assert(self.node_of@.contains_key(nodes[next as int].path@));
                            } else {
                                assert(v@.take(i as int).take(pn.len() as int) =~= v@.take(i + 1).take(pn.len() as int));
                            }
                        }
                        if is_prefix(pn, v@.take(i as int)) {
                            assert(v@.take(i as int).take(pn.len() as int) =~= v@.take(i + 1).take(pn.len() as int));
                        }
                    }
                }
            }
            cur = next;
            i = i + 1;
        }
        self.entries = Ghost(e2);
        proof {
            let nodes = self.nodes@;
            assert(i == v@.len());
            assert(v@.take(v@.len() as int) =~= v@);
            assert forall|x: u64, j: int| e2.contains_key(x) && 0 <= j <= e2[x].len()
                implies #[trigger] self.node_of@.contains_key(#[trigger] e2[x].take(j)) by {
                assert(e2[x] == e[x]);
            }
            assert(self@ =~= old(self)@.remove(id));
        }
    }

    /// Appends to `out` the ids of the entries below node `n` whose value,
    /// after the node's prefix, holds `q` from position `k` on as a
    /// subsequence, each once. Once `q` is used up every entry below the node
    /// matches, and the walk stops there.
    fn collect(&self, n: usize, k: usize, q: &Vec<char>, out: &mut Vec<u64>)
        requires
            self.wf(),
            n < self.nodes@.len(),
            k <= q@.len(),
            old(out)@.no_duplicates(),
            forall|x: u64| #[trigger] old(out)@.contains(x)
                ==> !subtree_matches(self.entries@, self.nodes@[n as int].path@, q@.skip(k as int), x),
        ensures
            final(out)@.no_duplicates(),
            forall|x: u64| #[trigger] final(out)@.contains(x) <==> old(out)@.contains(x)
                || subtree_matches(self.entries@, self.nodes@[n as int].path@, q@.skip(k as int), x),
        decreases self.nodes@.len() - self.nodes@[n as int].path@.len(),
    {
        let ghost e = self.entries@;
        let ghost pn = self.nodes@[n as int].path@;
        let ghost qk = q@.skip(k as int);
        let ghost out0 = out@;
        if k == q.len() {
            let ids = &self.nodes[n].ids;
            proof {
                assert(qk.len() == 0);
                assert forall|x: u64| #[trigger] ids@.contains(x) implies subtree_matches(e, pn, qk, x) by {
                    assert(ids@.contains(x) <==> e.contains_key(x) && is_prefix(pn, e[x]));
                }
            }
            let ghost mut added: Seq<u64> = Seq::empty();
            for x in it: ids.iter()
                invariant
                    ids@ == self.nodes@[n as int].ids@,
                    it.seq().unref().to_set() == ids@,
                    it.seq().unref().no_duplicates(),
                    added == it.seq().unref().take(it.index() as int),
                    out@ == out0 + added,
                    it.index() == it.seq().len() ==> added.to_set() == ids@ && added.no_duplicates(),
            {
                out.push(*x);
                proof {
                    added = added.push(*x);
                }
                assert(added =~= it.seq().unref().take(it.index() + 1));
                assert(out@ =~= out0 + added);
                assert(it.seq().unref().take(it.seq().len() as int) =~= it.seq().unref());
            }
            proof {
                assert forall|x: u64| #[trigger] added.contains(x) <==> ids@.contains(x) by {
                    assert(added.to_set().contains(x) <==> added.contains(x));
                }
                assert forall|x: u64| #[trigger] out@.contains(x) <==> out0.contains(x) || subtree_matches(e, pn, qk, x) by {
                    assert(ids@.contains(x) <==> e.contains_key(x) && is_prefix(pn, e[x]));
                    if out@.contains(x) {
                        let t = choose|t: int| 0 <= t < out@.len() && out@[t] == x;
                        if t >= out0.len() {
                            assert(added[t - out0.len()] == x);
                        }
                    }
                    if added.contains(x) {
                        let t = choose|t: int| 0 <= t < added.len() && added[t] == x;
                        assert(out@[out0.len() + t] == x);
                    }
                    if out0.contains(x) {
                        let t = choose|t: int| 0 <= t < out0.len() && out0[t] == x;
                        assert(out@[t] == x);
                    }
                }
                assert forall|a: int, b: int| 0 <= a < b < out@.len() implies out@[a] != out@[b] by {
                    if b >= out0.len() && a < out0.len() {
                        assert(added.contains(out@[b]));
                        assert(out0.contains(out@[a]));
                    } else if a >= out0.len() {
                        assert(out@[a] == added[a - out0.len()]);
                        assert(out@[b] == added[b - out0.len()]);
                    }
                }
            }
            return;
        }
        let children = &self.nodes[n].children;
        let qlen = q.len();
        let mut j: usize = 0;
        while j < children.len()
            invariant
                qlen == q@.len(),
                self.wf(),
                e == self.entries@,
                n < self.nodes@.len(),
                pn == self.nodes@[n as int].path@,
                children@ == self.nodes@[n as int].children@,
                k < q@.len(),
                qk == q@.skip(k as int),
                j <= children@.len(),
                out@.no_duplicates(),
                forall|x: u64| #[trigger] out0.contains(x) ==> !subtree_matches(e, pn, qk, x),
                forall|x: u64| #[trigger] out@.contains(x) <==> out0.contains(x) || (subtree_matches(e, pn, qk, x)
                    && e[x].len() > pn.len() && exists|j2: int| 0 <= j2 < j && #[trigger] children@[j2].0 == e[x][pn.len() as int]),
            decreases children@.len() - j,
        {
            let c = children[j].0;
            let m = children[j].1;
            let k2: usize = if c == q[k] { k + 1 } else { k };
            proof {
                assert(children@[j as int].1 < self.nodes@.len());
                assert(self.nodes@[m as int].path@ == pn.push(c));
                assert forall|x: u64| #[trigger] out@.contains(x)
                    implies !subtree_matches(e, pn.push(c), q@.skip(k2 as int), x) by {
                    if e.contains_key(x) {
                        lemma_child_step(e, pn, c, q@, k as int, x);
                        if subtree_matches(e, pn.push(c), q@.skip(k2 as int), x) && !out0.contains(x) {
                            let j2 = choose|j2: int| 0 <= j2 < j && #[trigger] children@[j2].0 == e[x][pn.len() as int];
                            assert(children@[j2].0 != children@[j as int].0);
                        }
                    }
                }
            }
            let ghost prev = out@;
            self.collect(m, k2, q, out);
            proof {
                assert forall|x: u64| #[trigger] out@.contains(x) <==> out0.contains(x) || (subtree_matches(e, pn, qk, x)
                    && e[x].len() > pn.len() && exists|j2: int| 0 <= j2 < j + 1 && #[trigger] children@[j2].0 == e[x][pn.len() as int]) by {
                    if e.contains_key(x) {
                        lemma_child_step(e, pn, c, q@, k as int, x);
                        if subtree_matches(e, pn.push(c), q@.skip(k2 as int), x) {
                            assert(children@[j as int].0 == e[x][pn.len() as int]);
                        }
                        if out0.contains(x) || (subtree_matches(e, pn, qk, x) && e[x].len() > pn.len()
                            && exists|j2: int| 0 <= j2 < j && #[trigger] children@[j2].0 == e[x][pn.len() as int]) {
                            assert(prev.contains(x));
                        }
                    } else {
                        assert(!subtree_matches(e, pn.push(c), q@.skip(k2 as int), x));
                    }
                }
            }
            j = j + 1;
        }
        proof {
            assert forall|x: u64| #[trigger] out@.contains(x) <==> out0.contains(x) || subtree_matches(e, pn, qk, x) by {
                if subtree_matches(e, pn, qk, x) {
                    let v = e[x];
                    let l = pn.len() as int;
                    if v.len() == l {
                        assert(v.skip(l).len() == 0);
                        assert(qk.len() > 0);
                    }
                    assert(v.len() > l);
                    assert(self.node_of@.contains_key(v.take(l + 1)));
                    let next_path = v.take(l + 1);
                    assert(next_path.drop_last() =~= pn);
                    assert(self.node_of@.contains_key(pn));
                    assert(self.node_of@[pn] == n);
                    let j2 = choose|j2: int| 0 <= j2 < self.nodes@[self.node_of@[next_path.drop_last()] as int].children@.len()
                        && #[trigger] self.nodes@[self.node_of@[next_path.drop_last()] as int].children@[j2] == (next_path.last(), self.node_of@[next_path]);
                    assert(children@[j2].0 == v[l]);
                }
            }
        }
    }

    /// The ids of the indexed records whose value holds `query` as a
    /// subsequence: exactly the matches among the entries, never fewer.
    pub fn search(&self, query: &str) -> (r: Vec<u64>)
        requires
            self.wf(),
        ensures
            r@.no_duplicates(),
            forall|x: u64| #[trigger] r@.contains(x) <==> self@.contains_key(x) && is_subsequence(self@[x], query@),
    {
        let q = chars_of(query);
        let mut out: Vec<u64> = Vec::new();
        self.collect(0, 0, &q, &mut out);
        proof {
            assert(q@.skip(0) =~= q@);
            assert forall|x: u64| #[trigger] out@.contains(x) <==> self@.contains_key(x) && is_subsequence(self@[x], query@) by {
                if self@.contains_key(x) {
                    let v = self@[x];
                    assert(v.take(0) =~= Seq::<char>::empty());
                    assert(v.skip(0) =~= v);
                    lemma_greedy_iff_subsequence(v, q@);
                }
            }
        }
        out
    }
}

} // verus!
