//! A generator of workloads against the index: streams of `add`, `done` and
//! `search` commands drawn at random from a pool of words and tags, where
//! most searches are built from an earlier `add` so that they should match.
use vstd::prelude::*;
use vstd::string::StrSliceExecFns;
use rand::rngs::ThreadRng;
use rand::seq::SliceRandom;
use rand::Rng;
use std::collections::VecDeque;
use crate::matcher::{is_subsequence, lemma_remove_keeps_subsequence, lemma_subsequence_reflexive};
use crate::query::{texts, Query, WordOrTag};

verus! {

/// rand's thread-local random number generator, carried through opaque.
#[verifier::external_type_specification]
#[verifier::external_body]
pub struct ExThreadRng(ThreadRng);

/// Relies on rand's `Rng::gen_range` over `0..n`: a value below `n`. It
/// panics on an empty range, so `n` is positive.
#[verifier::external_body]
fn random_below(rng: &mut ThreadRng, n: usize) -> (r: usize)
    requires
        n > 0,
    ensures
        r < n,
{
    rng.gen_range(0..n)
}

/// Relies on rand's `SliceRandom::shuffle`: the tokens are permuted in place.
#[verifier::external_body]
fn shuffle_tokens(rng: &mut ThreadRng, v: &mut Vec<WordOrTag>)
    ensures
        final(v)@.to_multiset() == old(v)@.to_multiset(),
{
    v.shuffle(rng)
}

/// How many extra items to draw: none half of the time, one a quarter of
/// the time, two or three an eighth of the time each.
fn extra_count(rng: &mut ThreadRng) -> (r: usize)
    ensures
        r <= 3,
{
    let roll = random_below(rng, 8) + 1;
    if roll <= 4 {
        0
    } else if roll <= 6 {
        1
    } else if roll == 7 {
        2
    } else {
        3
    }
}

/// A random word of one to seven characters, each drawn from `chars`.
pub fn random_word(rng: &mut ThreadRng, chars: &str) -> (r: String)
    requires
        chars@.len() > 0,
    ensures
        1 <= r@.len() <= 7,
        forall|i: int| 0 <= i < r@.len() ==> chars@.contains(#[trigger] r@[i]),
{
    let n = chars.unicode_len();
    let len = random_below(rng, 7) + 1;
    let mut w = String::new();
    let mut k: usize = 0;
    while k < len
        invariant
            n == chars@.len(),
            n > 0,
            k <= len <= 7,
            w@.len() == k,
            forall|i: int| 0 <= i < w@.len() ==> chars@.contains(#[trigger] w@[i]),
        decreases len - k,
    {
        let i = random_below(rng, n);
        let c = chars.substring_char(i, i + 1);
        let ghost before = w@;
        w.append(c);
        proof {
            assert(c@ =~= seq![chars@[i as int]]);
            assert forall|j: int| 0 <= j < w@.len() implies chars@.contains(#[trigger] w@[j]) by {
                if j < before.len() {
                    assert(w@[j] == before[j]);
                } else {
                    assert(w@[j] == chars@[i as int]);
                }
            }
        }
        k = k + 1;
    }
    w
}

/// `s` with a random number of its characters taken out, at random places,
/// always fewer than all of them: a non-empty subsequence of a non-empty `s`.
pub fn random_subsequence(rng: &mut ThreadRng, s: &str) -> (r: String)
    ensures
        is_subsequence(s@, r@),
        s@.len() > 0 ==> r@.len() > 0,
{
    let len = s.unicode_len();
    let mut cur = s.to_owned();
    proof {
        lemma_subsequence_reflexive(s@);
    }
    if len == 0 {
        return cur;
    }
    let removals = random_below(rng, len);
    let mut k: usize = 0;
    while k < removals
        invariant
            removals < len == s@.len(),
            k <= removals,
            cur@.len() == len - k,
            is_subsequence(s@, cur@),
        decreases removals - k,
    {
        let n = cur.unicode_len();
        let i = random_below(rng, n);
        let ghost before = cur@;
        let mut next = cur.as_str().substring_char(0, i).to_owned();
        next.append(cur.as_str().substring_char(i + 1, n));
        proof {
            assert(next@ =~= before.remove(i as int));
            lemma_remove_keeps_subsequence(s@, before, i as int);
        }
        cur = next;
        k = k + 1;
    }
    cur
}

/// `n` hyphens.
pub open spec fn hyphens(n: nat) -> Seq<char> {
    Seq::new(n, |_i: int| '-')
}

/// The segments `parts` joined by runs of hyphens, the run between part `i`
/// and part `i + 1` being `gaps[i]` long.
pub open spec fn drop_text(parts: Seq<Seq<char>>, gaps: Seq<nat>) -> Seq<char>
    decreases parts.len(),
{
    if parts.len() == 0 {
        Seq::empty()
    } else if parts.len() == 1 {
        parts[0]
    } else {
        drop_text(parts.drop_last(), gaps.drop_last()) + hyphens(gaps.last()) + parts.last()
    }
}

/// `w` is one to four segments of `segs` joined by runs of one to three
/// hyphens.
pub open spec fn is_drop(w: Seq<char>, segs: Seq<Seq<char>>) -> bool {
    exists|parts: Seq<Seq<char>>, gaps: Seq<nat>|
        {
            &&& 1 <= parts.len() <= 4
            &&& gaps.len() + 1 == parts.len()
            &&& forall|i: int| 0 <= i < parts.len() ==> segs.contains(#[trigger] parts[i])
            &&& forall|i: int| 0 <= i < gaps.len() ==> 1 <= #[trigger] gaps[i] <= 3
            &&& w == drop_text(parts, gaps)
        }
}

/// A random segment of `segments`.
fn random_segment(rng: &mut ThreadRng, segments: &Vec<String>) -> (r: String)
    requires
        segments@.len() > 0,
    ensures
        texts(segments@).contains(r@),
{
    let i = random_below(rng, segments.len());
    let r = segments[i].clone();
    assert(texts(segments@)[i as int] == r@);
    r
}

/// A word for a pool: a random segment, followed, half of the time, by one to
/// three more, each after a run of hyphens that is one long nine times out
/// of ten.
fn generate_drop(rng: &mut ThreadRng, segments: &Vec<String>) -> (r: String)
    requires
        segments@.len() > 0,
    ensures
        is_drop(r@, texts(segments@)),
{
    let ghost segs = texts(segments@);
    let mut drop = random_segment(rng, segments);
    let ghost mut parts: Seq<Seq<char>> = seq![drop@];
    let ghost mut gaps: Seq<nat> = Seq::empty();
    let extra = extra_count(rng);
    let mut k: usize = 0;
    while k < extra
        invariant
            segments@.len() > 0,
            segs == texts(segments@),
            k <= extra <= 3,
            parts.len() == k + 1,
            gaps.len() == k,
            forall|i: int| 0 <= i < parts.len() ==> segs.contains(#[trigger] parts[i]),
            forall|i: int| 0 <= i < gaps.len() ==> 1 <= #[trigger] gaps[i] <= 3,
            drop@ == drop_text(parts, gaps),
        decreases extra - k,
    {
        let roll = random_below(rng, 20) + 1;
        let ghost before = drop@;
        let ghost gap: nat;
        if roll <= 18 {
            drop.append("-");
            proof {
                reveal_strlit("-");
                gap = 1;
            }
        } else if roll == 19 {
            drop.append("--");
            proof {
                reveal_strlit("--");
                gap = 2;
            }
        } else {
            drop.append("---");
            proof {
                reveal_strlit("---");
                gap = 3;
            }
        }
        let seg = random_segment(rng, segments);
        drop.append(seg.as_str());
        proof {
            let parts1 = parts.push(seg@);
            let gaps1 = gaps.push(gap);
            assert(parts1.drop_last() =~= parts);
            assert(gaps1.drop_last() =~= gaps);
            assert(drop@ =~= before + hyphens(gap) + seg@);
            assert(drop@ == drop_text(parts1, gaps1));
            assert forall|i: int| 0 <= i < parts1.len() implies segs.contains(#[trigger] parts1[i]) by {
                if i < parts.len() {
                    assert(parts1[i] == parts[i]);
                }
            }
            assert forall|i: int| 0 <= i < gaps1.len() implies 1 <= #[trigger] gaps1[i] <= 3 by {
                if i < gaps.len() {
                    assert(gaps1[i] == gaps[i]);
                }
            }
            parts = parts1;
            gaps = gaps1;
        }
        k = k + 1;
    }
    assert(1 <= parts.len() <= 4);
    drop
}

/// `num` words drawn with `generate_drop`.
fn generate_pool(rng: &mut ThreadRng, num: usize, segments: &Vec<String>) -> (r: Vec<String>)
    requires
        segments@.len() > 0,
    ensures
        r@.len() == num,
        forall|i: int| 0 <= i < r@.len() ==> is_drop(#[trigger] r@[i]@, texts(segments@)),
{
    let mut pool: Vec<String> = Vec::new();
    let mut k: usize = 0;
    while k < num
        invariant
            segments@.len() > 0,
            k <= num,
            pool@.len() == k,
            forall|i: int| 0 <= i < pool@.len() ==> is_drop(#[trigger] pool@[i]@, texts(segments@)),
        decreases num - k,
    {
        let d = generate_drop(rng, segments);
        pool.push(d);
        k = k + 1;
    }
    pool
}

/// The words and the tags that `add` commands draw from.
pub struct Pool {
    word_num: usize,
    tag_num: usize,
    word_pool: Vec<String>,
    tag_pool: Vec<String>,
}

impl Pool {
    /// The words.
    pub closed spec fn words(&self) -> Seq<Seq<char>> {
        texts(self.word_pool@)
    }

    /// The tags.
    pub closed spec fn tags(&self) -> Seq<Seq<char>> {
        texts(self.tag_pool@)
    }

    pub closed spec fn wf(&self) -> bool {
        &&& self.word_num == self.word_pool@.len()
        &&& self.tag_num == self.tag_pool@.len()
    }

    /// A pool of `word_num` words and `tag_num` tags, each made of the
    /// segments `segments` joined by hyphens.
    pub fn new(rng: &mut ThreadRng, word_num: usize, tag_num: usize, segments: &Vec<String>) -> (p: Pool)
        requires
            segments@.len() > 0,
        ensures
            p.wf(),
            p.words().len() == word_num,
            p.tags().len() == tag_num,
            forall|i: int| 0 <= i < word_num ==> is_drop(#[trigger] p.words()[i], texts(segments@)),
            forall|i: int| 0 <= i < tag_num ==> is_drop(#[trigger] p.tags()[i], texts(segments@)),
    {
        let word_pool = generate_pool(rng, word_num, segments);
        let tag_pool = generate_pool(rng, tag_num, segments);
        let p = Pool { word_num, tag_num, word_pool, tag_pool };
        assert forall|i: int| 0 <= i < word_num implies is_drop(#[trigger] p.words()[i], texts(segments@)) by {
            assert(p.words()[i] == p.word_pool@[i]@);
        }
        assert forall|i: int| 0 <= i < tag_num implies is_drop(#[trigger] p.tags()[i], texts(segments@)) by {
            assert(p.tags()[i] == p.tag_pool@[i]@);
        }
        p
    }

    /// A random word of the pool.
    pub fn get_word(&self, rng: &mut ThreadRng) -> (r: &str)
        requires
            self.wf(),
            self.words().len() > 0,
        ensures
            self.words().contains(r@),
    {
        let i = random_below(rng, self.word_num);
        let r = self.word_pool[i].as_str();
        assert(self.words()[i as int] == r@);
        r
    }

    /// A random tag of the pool.
    pub fn get_tag(&self, rng: &mut ThreadRng) -> (r: &str)
        requires
            self.wf(),
            self.tags().len() > 0,
        ensures
            self.tags().contains(r@),
    {
        let i = random_below(rng, self.tag_num);
        let r = self.tag_pool[i].as_str();
        assert(self.tags()[i as int] == r@);
        r
    }
}

/// `q` is an `add` of one to four words of `words` and at most three tags of
/// `tags`.
pub open spec fn is_add_from(q: Query, words: Seq<Seq<char>>, tags: Seq<Seq<char>>) -> bool {
    match q {
        Query::Add(w, t) => {
            &&& 1 <= w@.len() <= 4
            &&& t@.len() <= 3
            &&& forall|i: int| 0 <= i < w@.len() ==> words.contains(#[trigger] w@[i]@)
            &&& forall|i: int| 0 <= i < t@.len() ==> tags.contains(#[trigger] t@[i]@)
        },
        _ => false,
    }
}

/// An `add` of a random word and, half of the time, one to three more, with
/// as many random tags, drawn the same way.
fn generate_add(rng: &mut ThreadRng, pool: &Pool) -> (r: Query)
    requires
        pool.wf(),
        pool.words().len() > 0,
        pool.tags().len() > 0,
    ensures
        is_add_from(r, pool.words(), pool.tags()),
{
    let mut words: Vec<String> = Vec::new();
    words.push(pool.get_word(rng).to_owned());
    let extra_words = extra_count(rng);
    let mut k: usize = 0;
    while k < extra_words
        invariant
            pool.wf(),
            pool.words().len() > 0,
            k <= extra_words <= 3,
            words@.len() == k + 1,
            forall|i: int| 0 <= i < words@.len() ==> pool.words().contains(#[trigger] words@[i]@),
        decreases extra_words - k,
    {
        words.push(pool.get_word(rng).to_owned());
        k = k + 1;
    }
    let mut tags: Vec<String> = Vec::new();
    let extra_tags = extra_count(rng);
    let mut k: usize = 0;
    while k < extra_tags
        invariant
            pool.wf(),
            pool.tags().len() > 0,
            k <= extra_tags <= 3,
            tags@.len() == k,
            forall|i: int| 0 <= i < tags@.len() ==> pool.tags().contains(#[trigger] tags@[i]@),
        decreases extra_tags - k,
    {
        tags.push(pool.get_tag(rng).to_owned());
        k = k + 1;
    }
    Query::Add(words, tags)
}

/// The string a token carries, without its `#`.
pub open spec fn token_string(p: WordOrTag) -> Seq<char> {
    match p {
        WordOrTag::Word(w) => w@,
        WordOrTag::Tag(t) => t@,
    }
}

/// `pre` is `nw` word tokens, the `i`-th cut from `w[i]`, followed by tag
/// tokens, the `j`-th of them cut from `t[j]`: each a subsequence of its
/// source, and not empty when its source is not.
pub open spec fn is_cut_sequence(pre: Seq<WordOrTag>, nw: int, w: Seq<Seq<char>>, t: Seq<Seq<char>>) -> bool {
    &&& 0 <= nw <= pre.len()
    &&& nw <= w.len()
    &&& pre.len() - nw <= t.len()
    &&& forall|i: int| 0 <= i < nw ==> (#[trigger] pre[i]) is Word && is_subsequence(w[i], token_string(pre[i]))
        && (w[i].len() > 0 ==> token_string(pre[i]).len() > 0)
    &&& forall|i: int| nw <= i < pre.len() ==> (#[trigger] pre[i]) is Tag && is_subsequence(t[i - nw], token_string(pre[i]))
        && (t[i - nw].len() > 0 ==> token_string(pre[i]).len() > 0)
}

/// `r` is a search built from the `add` command `add`: its tokens, in some
/// order, are cuts of the first one to four words of `add` (none if it has
/// none) and of its first tags, at most three. For another command, an empty
/// search.
pub open spec fn is_cut_search(r: Query, add: Query) -> bool {
    match add {
        Query::Add(w, t) => r is Search && exists|pre: Seq<WordOrTag>, nw: int|
            #[trigger] is_cut_sequence(pre, nw, texts(w@), texts(t@))
                && search_tokens(r).to_multiset() == pre.to_multiset()
                && (w@.len() > 0 ==> 1 <= nw) && nw <= 4 && pre.len() - nw <= 3,
        _ => r is Search && search_tokens(r).len() == 0,
    }
}

/// `s` has one to seven characters, all of them from `chars`.
pub open spec fn is_random_word(s: Seq<char>, chars: Seq<char>) -> bool {
    &&& 1 <= s.len() <= 7
    &&& forall|j: int| 0 <= j < s.len() ==> chars.contains(#[trigger] s[j])
}

/// `pre` is `nw` word tokens, one to four, followed by at most three tag
/// tokens, each a random word over `chars`.
pub open spec fn is_random_sequence(pre: Seq<WordOrTag>, nw: int, chars: Seq<char>) -> bool {
    &&& 1 <= nw <= 4
    &&& nw <= pre.len() <= nw + 3
    &&& forall|i: int| 0 <= i < pre.len() ==> ((#[trigger] pre[i]) is Word <==> i < nw)
        && is_random_word(token_string(pre[i]), chars)
}

/// `r` is a search of random words over `chars`, in some order.
pub open spec fn is_random_search(r: Query, chars: Seq<char>) -> bool {
    r is Search && exists|pre: Seq<WordOrTag>, nw: int|
        #[trigger] is_random_sequence(pre, nw, chars) && search_tokens(r).to_multiset() == pre.to_multiset()
}

/// The tokens of a search command; none for another command.
pub open spec fn search_tokens(q: Query) -> Seq<WordOrTag> {
    match q {
        Query::Search(ps) => ps@,
        _ => Seq::empty(),
    }
}

/// A search built from the `add` command `add_query`: of its first words
/// (one, and half of the time up to three more) and of its first tags (none,
/// half of the time, else up to three), each kept whole a quarter of the time
/// and otherwise cut down to a random subsequence, in a random order.
pub fn guaranteed_search(rng: &mut ThreadRng, add_query: &Query) -> (r: Query)
    ensures
        is_cut_search(r, *add_query),
{
    match add_query {
        Query::Add(words, tags) => {
            let ghost ws = texts(words@);
            let ghost ts = texts(tags@);
            let extra = extra_count(rng);
            let matched_words = if extra + 1 < words.len() { extra + 1 } else { words.len() };
            let extra = extra_count(rng);
            let matched_tags = if extra < tags.len() { extra } else { tags.len() };
            let mut params: Vec<WordOrTag> = Vec::new();
            let mut i: usize = 0;
            while i < matched_words
                invariant
                    ws == texts(words@),
                    ts == texts(tags@),
                    matched_words <= words@.len(),
                    matched_words <= 4,
                    i <= matched_words,
                    params@.len() == i,
                    forall|k: int| 0 <= k < i ==> (#[trigger] params@[k]) is Word
                        && is_subsequence(ws[k], token_string(params@[k]))
                        && (ws[k].len() > 0 ==> token_string(params@[k]).len() > 0),
                decreases matched_words - i,
            {
                let ghost before = params@;
                let token = if random_below(rng, 4) == 0 {
                    let w = words[i].clone();
                    proof {
                        lemma_subsequence_reflexive(words@[i as int]@);
                    }
                    w
                } else {
                    random_subsequence(rng, words[i].as_str())
                };
                proof {
                    assert(ws[i as int] == words@[i as int]@);
                }
                params.push(WordOrTag::Word(token));
                proof {
                    assert forall|k: int| 0 <= k < i + 1 implies (#[trigger] params@[k]) is Word
                        && is_subsequence(ws[k], token_string(params@[k]))
                        && (ws[k].len() > 0 ==> token_string(params@[k]).len() > 0) by {
                        if k < before.len() {
                            assert(params@[k] == before[k]);
                        }
                    }
                }
                i = i + 1;
            }
            let mut i: usize = 0;
            while i < matched_tags
                invariant
                    ws == texts(words@),
                    ts == texts(tags@),
                    matched_tags <= tags@.len(),
                    matched_tags <= 3,
                    matched_words <= words@.len(),
                    matched_words <= 4,
                    i <= matched_tags,
                    params@.len() == matched_words + i,
                    forall|k: int| 0 <= k < matched_words ==> (#[trigger] params@[k]) is Word
                        && is_subsequence(ws[k], token_string(params@[k]))
                        && (ws[k].len() > 0 ==> token_string(params@[k]).len() > 0),
                    forall|k: int| matched_words <= k < params@.len() ==> (#[trigger] params@[k]) is Tag
                        && is_subsequence(ts[k - matched_words], token_string(params@[k]))
                        && (ts[k - matched_words].len() > 0 ==> token_string(params@[k]).len() > 0),
                decreases matched_tags - i,
            {
                let ghost before = params@;
                let token = if random_below(rng, 4) == 0 {
                    let t = tags[i].clone();
                    proof {
                        lemma_subsequence_reflexive(tags@[i as int]@);
                    }
                    t
                } else {
                    random_subsequence(rng, tags[i].as_str())
                };
                proof {
                    assert(ts[i as int] == tags@[i as int]@);
                }
                params.push(WordOrTag::Tag(token));
                proof {
                    assert forall|k: int| 0 <= k < matched_words implies (#[trigger] params@[k]) is Word
                        && is_subsequence(ws[k], token_string(params@[k]))
                        && (ws[k].len() > 0 ==> token_string(params@[k]).len() > 0) by {
                        assert(params@[k] == before[k]);
                    }
                    assert forall|k: int| matched_words <= k < params@.len() implies (#[trigger] params@[k]) is Tag
                        && is_subsequence(ts[k - matched_words], token_string(params@[k]))
                        && (ts[k - matched_words].len() > 0 ==> token_string(params@[k]).len() > 0) by {
                        if k < before.len() {
                            assert(params@[k] == before[k]);
                        }
                    }
                }
                i = i + 1;
            }
            let ghost pre = params@;
            let ghost nw = matched_words as int;
            shuffle_tokens(rng, &mut params);
            proof {
                assert(is_cut_sequence(pre, nw, ws, ts));
            }
            let r = Query::Search(params);
            proof {
                assert(search_tokens(r).to_multiset() == pre.to_multiset());
                assert(is_cut_sequence(pre, nw, texts(words@), texts(tags@)));
            }
            r
        },
        _ => Query::Search(Vec::new()),
    }
}

/// A search of one random word and, half of the time, one to three more,
/// and of as many random tags, drawn the same way, in a random order.
pub fn random_search(rng: &mut ThreadRng, chars: &str) -> (r: Query)
    requires
        chars@.len() > 0,
    ensures
        is_random_search(r, chars@),
{
    let generated_words = extra_count(rng) + 1;
    let generated_tags = extra_count(rng);
    let mut params: Vec<WordOrTag> = Vec::new();
    let mut i: usize = 0;
    while i < generated_words + generated_tags
        invariant
            chars@.len() > 0,
            1 <= generated_words <= 4,
            generated_tags <= 3,
            i <= generated_words + generated_tags,
            params@.len() == i,
            forall|k: int| 0 <= k < i ==> ((#[trigger] params@[k]) is Word <==> k < generated_words)
                && is_random_word(token_string(params@[k]), chars@),
        decreases generated_words + generated_tags - i,
    {
        let ghost before = params@;
        let w = random_word(rng, chars);
        if i < generated_words {
            params.push(WordOrTag::Word(w));
        } else {
            params.push(WordOrTag::Tag(w));
        }
        proof {
            assert forall|k: int| 0 <= k < i + 1 implies ((#[trigger] params@[k]) is Word <==> k < generated_words)
                && is_random_word(token_string(params@[k]), chars@) by {
                if k < before.len() {
                    assert(params@[k] == before[k]);
                }
            }
        }
        i = i + 1;
    }
    let ghost pre = params@;
    shuffle_tokens(rng, &mut params);
    proof {
        assert(is_random_sequence(pre, generated_words as int, chars@));
    }
    let r = Query::Search(params);
    proof {
        assert(search_tokens(r).to_multiset() == pre.to_multiset());
        assert(is_random_sequence(pre, generated_words as int, chars@));
    }
    r
}

/// A `done` command for the record `n`.
fn generate_done(n: u64) -> (r: Query)
    ensures
        r == Query::Done(n),
{
    Query::Done(n)
}

/// A search: three times out of four built from `add_query`, else of random
/// words.
fn generate_search(rng: &mut ThreadRng, add_query: &Query, chars: &str) -> (r: Query)
    requires
        chars@.len() > 0,
    ensures
        is_cut_search(r, *add_query) || is_random_search(r, chars@),
{
    if random_below(rng, 4) < 3 {
        guaranteed_search(rng, add_query)
    } else {
        random_search(rng, chars)
    }
}

/// Copies of the strings of `v`.
fn copy_strings(v: &Vec<String>) -> (r: Vec<String>)
    ensures
        r@ == v@,
{
    let mut r: Vec<String> = Vec::new();
    let mut i: usize = 0;
    while i < v.len()
        invariant
            i <= v@.len(),
            r@ == v@.take(i as int),
        decreases v@.len() - i,
    {
        r.push(v[i].clone());
        proof {
            assert(r@ =~= v@.take(i + 1));
        }
        i = i + 1;
    }
    assert(v@.take(v@.len() as int) =~= v@);
    r
}

/// A copy of the `add` command `q`.
fn copy_add(q: &Query) -> (r: Query)
    ensures
        q is Add ==> r is Add && r->Add_0@ == q->Add_0@ && r->Add_1@ == q->Add_1@,
{
    match q {
        Query::Add(w, t) => Query::Add(copy_strings(w), copy_strings(t)),
        _ => Query::Done(0),
    }
}

/// `active` holds distinct ids, each below `next_id`.
pub open spec fn ids_consistent(active: Seq<u64>, next_id: u64) -> bool {
    &&& active.no_duplicates()
    &&& forall|i: int| 0 <= i < active.len() ==> #[trigger] active[i] < next_id
}

/// Every command of `history` is an `add` from `words` and `tags`, and a
/// positive `bound` bounds its length.
pub open spec fn history_ok(history: Seq<Query>, bound: nat, words: Seq<Seq<char>>, tags: Seq<Seq<char>>) -> bool {
    &&& forall|i: int| 0 <= i < history.len() ==> is_add_from(#[trigger] history[i], words, tags)
    &&& bound > 0 ==> history.len() <= bound
}

/// `a` and `b` are `add` commands of the same words and tags.
pub open spec fn same_add(a: Query, b: Query) -> bool {
    &&& a is Add
    &&& b is Add
    &&& a->Add_0@ == b->Add_0@
    &&& a->Add_1@ == b->Add_1@
}

/// The state of a workload: the next id, the ids not yet done, the pool of
/// words and tags, and the latest `add` commands that searches are built
/// from.
pub struct Generator {
    next_id: u64,
    active_ids: Vec<u64>,
    pool: Pool,
    add_query_history_num: usize,
    add_query_history: VecDeque<Query>,
    chars: String,
}

impl Generator {
    /// The id that the next `add` creates.
    pub closed spec fn next_id(&self) -> u64 {
        self.next_id
    }

    /// The ids added and not done yet, oldest first.
    pub closed spec fn active(&self) -> Seq<u64> {
        self.active_ids@
    }

    /// The latest `add` commands, oldest first.
    pub closed spec fn history(&self) -> Seq<Query> {
        self.add_query_history@
    }

    /// The words of the pool.
    pub closed spec fn words(&self) -> Seq<Seq<char>> {
        self.pool.words()
    }

    /// The tags of the pool.
    pub closed spec fn tags(&self) -> Seq<Seq<char>> {
        self.pool.tags()
    }

    /// How many `add` commands are kept for searches.
    pub closed spec fn history_bound(&self) -> nat {
        self.add_query_history_num as nat
    }

    /// The characters of random search words.
    pub closed spec fn chars(&self) -> Seq<char> {
        self.chars@
    }

    pub closed spec fn wf(&self) -> bool {
        &&& self.pool.wf()
        &&& self.chars@.len() > 0
        &&& ids_consistent(self.active_ids@, self.next_id)
        &&& history_ok(self.add_query_history@, self.add_query_history_num as nat, self.pool.words(), self.pool.tags())
    }

    /// A generator with a fresh pool of `word_num` words and `tag_num` tags
    /// made of `segments`, whose random search words are made of the
    /// characters of `chars`, and which keeps the latest
    /// `add_query_history_num` `add` commands to build searches from.
    pub fn new(
        rng: &mut ThreadRng,
        word_num: usize,
        tag_num: usize,
        add_query_history_num: usize,
        segments: &Vec<String>,
        chars: &str,
    ) -> (g: Self)
        requires
            segments@.len() > 0,
            chars@.len() > 0,
        ensures
            g.wf(),
            g.chars() == chars@,
            g.next_id() == 0,
            g.active() == Seq::<u64>::empty(),
            g.history() == Seq::<Query>::empty(),
            g.history_bound() == add_query_history_num,
            g.words().len() == word_num,
            g.tags().len() == tag_num,
            forall|i: int| 0 <= i < word_num ==> is_drop(#[trigger] g.words()[i], texts(segments@)),
            forall|i: int| 0 <= i < tag_num ==> is_drop(#[trigger] g.tags()[i], texts(segments@)),
    {
        Generator {
            next_id: 0,
            active_ids: Vec::new(),
            pool: Pool::new(rng, word_num, tag_num, segments),
            add_query_history_num,
            add_query_history: VecDeque::with_capacity(add_query_history_num),
            chars: chars.to_owned(),
        }
    }

    /// The next command of the workload. Half of the time an `add` of the
    /// next id; a quarter of the time a `done` of a random active id, when
    /// there is one; a quarter of the time a search built from one of the
    /// latest `add` commands, when there is one. When a `done` or a search
    /// cannot be made the draw is made again, so they share out its chances
    /// among the commands that can.
    pub fn get_query(&mut self, rng: &mut ThreadRng) -> (r: Query)
        requires
            old(self).wf(),
            old(self).words().len() > 0,
            old(self).tags().len() > 0,
            old(self).next_id() < u64::MAX,
        ensures
            final(self).wf(),
            final(self).words() == old(self).words(),
            final(self).tags() == old(self).tags(),
            final(self).chars() == old(self).chars(),
            final(self).history_bound() == old(self).history_bound(),
            final(self).next_id() >= old(self).next_id(),
            ids_consistent(final(self).active(), final(self).next_id()),
            history_ok(final(self).history(), final(self).history_bound(), final(self).words(), final(self).tags()),
            match r {
                Query::Add(_, _) => {
                    &&& is_add_from(r, old(self).words(), old(self).tags())
                    &&& final(self).next_id() == old(self).next_id() + 1
                    &&& final(self).active() == old(self).active().push(old(self).next_id())
                    &&& final(self).history().len() > 0
                    &&& same_add(final(self).history().last(), r)
                    &&& final(self).history().drop_last() == if old(self).history().len() > 0
                        && old(self).history().len() == old(self).history_bound() {
                        old(self).history().drop_first()
                    } else {
                        old(self).history()
                    }
                },
                Query::Done(id) => {
                    &&& id < final(self).next_id()
                    &&& final(self).next_id() == old(self).next_id()
                    &&& exists|i: int| 0 <= i < old(self).active().len() && #[trigger] old(self).active()[i] == id
                        && final(self).active() == old(self).active().remove(i)
                    &&& final(self).history() == old(self).history()
                },
                Query::Search(_) => {
                    &&& old(self).history().len() > 0
                    &&& (exists|k: int| 0 <= k < old(self).history().len() && is_cut_search(r, #[trigger] old(self).history()[k]))
                        || is_random_search(r, old(self).chars())
                    &&& final(self).next_id() == old(self).next_id()
                    &&& final(self).active() == old(self).active()
                    &&& final(self).history() == old(self).history()
                },
            },
    {
        let can_done: usize = if self.active_ids.len() > 0 { 1 } else { 0 };
        let can_search: usize = if self.add_query_history.len() > 0 { 1 } else { 0 };
        let roll = random_below(rng, 2 + can_done + can_search);
        if roll < 2 {
            let query = generate_add(rng, &self.pool);
            let ghost old_active = self.active_ids@;
            self.active_ids.push(self.next_id);
            self.next_id = self.next_id + 1;
            let ghost old_hist = self.add_query_history@;
            if self.add_query_history.len() == self.add_query_history_num {
                self.add_query_history.pop_front();
            }
            let ghost mid_hist = self.add_query_history@;
            self.add_query_history.push_back(copy_add(&query));
            proof {
                assert(self.add_query_history@.drop_last() =~= mid_hist);
                if old_hist.len() > 0 && old_hist.len() == self.add_query_history_num {
                    assert(mid_hist =~= old_hist.drop_first());
                }
                let h = self.add_query_history@;
                assert forall|i: int| 0 <= i < h.len() implies is_add_from(#[trigger] h[i], self.pool.words(), self.pool.tags()) by {
                    if i < mid_hist.len() {
                        if mid_hist.len() < old_hist.len() {
                            assert(h[i] == old_hist[i + 1]);
                        } else {
                            assert(h[i] == old_hist[i]);
                        }
                    }
                }
                assert forall|i: int| 0 <= i < self.active_ids@.len() implies #[trigger] self.active_ids@[i] < self.next_id by {
                    if i < old_active.len() {
                        assert(self.active_ids@[i] == old_active[i]);
                    }
                }
                assert(is_add_from(query, old(self).words(), old(self).tags()));
                assert(self.next_id == old(self).next_id + 1);
                assert(self.active_ids@ == old(self).active_ids@.push(old(self).next_id));
                assert(same_add(self.add_query_history@.last(), query));
                assert(query is Add);
                assert forall|i: int, j: int| 0 <= i < j < self.active_ids@.len() implies self.active_ids@[i] != self.active_ids@[j] by {
                    if j < old_active.len() {
                        assert(self.active_ids@[i] == old_active[i]);
                        assert(self.active_ids@[j] == old_active[j]);
                    } else {
                        assert(self.active_ids@[i] == old_active[i]);
                        assert(old_active[i] < old(self).next_id);
                    }
                }
            }
            query
        } else if can_done == 1 && roll == 2 {
            let index = random_below(rng, self.active_ids.len());
            let ghost old_active = self.active_ids@;
            let query = generate_done(self.active_ids[index]);
            self.active_ids.remove(index);
            proof {
                let a = self.active_ids@;
                assert(a == old_active.remove(index as int));
                assert forall|i: int| 0 <= i < a.len() implies #[trigger] a[i] < self.next_id by {
                    if i < index { assert(a[i] == old_active[i]); } else { assert(a[i] == old_active[i + 1]); }
                }
                assert forall|i: int, j: int| 0 <= i < j < a.len() implies a[i] != a[j] by {
                    let i1 = if i < index { i } else { i + 1 };
                    let j1 = if j < index { j } else { j + 1 };
                    assert(a[i] == old_active[i1]);
                    assert(a[j] == old_active[j1]);
                }
                assert(0 <= index < old(self).active().len() && old(self).active()[index as int] == old_active[index as int]
                    && self.active() == old(self).active().remove(index as int));
            }
            query
        } else {
            let k = random_below(rng, self.add_query_history.len());
            let add_query = &self.add_query_history[k];
            let r = generate_search(rng, add_query, self.chars.as_str());
            proof {
                if is_cut_search(r, *add_query) {
                    assert(is_cut_search(r, self.add_query_history@[k as int]));
                }
                assert(r is Search);
                assert(self.add_query_history@ == old(self).add_query_history@);
            }
            r
        }
    }
}

} // verus!
