use subseq_index::index::SubsequenceIndex;
use subseq_index::matcher::contains_subsequence;
use subseq_index::store::{IndexError, RecordStore};
use subseq_index::trie::TrieIndex;

fn sorted(mut v: Vec<(u64, String)>) -> Vec<(u64, String)> {
    v.sort();
    v
}

fn pairs(items: &[(u64, &str)]) -> Vec<(u64, String)> {
    items.iter().map(|(i, s)| (*i, s.to_string())).collect()
}

#[test]
fn hello_world_scenario() {
    let mut idx = SubsequenceIndex::new();
    assert_eq!(idx.insert("hello"), 0);
    assert_eq!(idx.insert("world"), 1);
    assert_eq!(sorted(idx.search("hlo")), pairs(&[(0, "hello")]));
    assert_eq!(sorted(idx.search("wrd")), pairs(&[(1, "world")]));
    assert_eq!(idx.delete(0), Ok(()));
    assert_eq!(sorted(idx.search("hlo")), pairs(&[]));
}

#[test]
fn burld_scenario() {
    let mut idx = SubsequenceIndex::new();
    assert_eq!(idx.insert("burld"), 0);
    assert_eq!(sorted(idx.search("brl")), pairs(&[(0, "burld")]));
    assert_eq!(sorted(idx.search("brld ")), pairs(&[]));
}

#[test]
fn matcher_examples() {
    assert!(contains_subsequence("hello", "hlo"));
    assert!(contains_subsequence("hello", "hello"));
    assert!(contains_subsequence("hello", "ll"));
    assert!(!contains_subsequence("hello", "ohl"));
    assert!(!contains_subsequence("world", "hlo"));
    assert!(!contains_subsequence("abc", "abcd"));
    assert!(!contains_subsequence("", "a"));
}

#[test]
fn matcher_deletion_subsequences_match() {
    let v = "subsequence";
    let chars: Vec<char> = v.chars().collect();
    for mask in 0u32..(1 << chars.len()) {
        let q: String = chars
            .iter()
            .enumerate()
            .filter(|(i, _)| mask & (1 << i) != 0)
            .map(|(_, c)| *c)
            .collect();
        assert!(contains_subsequence(v, &q), "{} should hold {}", v, q);
    }
}

#[test]
fn matcher_missing_character_never_matches() {
    assert!(!contains_subsequence("subsequence", "sux"));
    assert!(!contains_subsequence("subsequence", "z"));
    assert!(!contains_subsequence("hello", "hello!"));
}

#[test]
fn matcher_multibyte_characters() {
    assert!(contains_subsequence("héllo wörld", "éö"));
    assert!(!contains_subsequence("héllo", "he"));
    assert!(contains_subsequence("日本語", "日語"));
}

#[test]
fn empty_query_matches_everything() {
    assert!(contains_subsequence("", ""));
    assert!(contains_subsequence("abc", ""));
    let mut idx = SubsequenceIndex::new();
    idx.insert("abc");
    idx.insert("");
    idx.insert("x");
    assert_eq!(
        sorted(idx.search("")),
        pairs(&[(0, "abc"), (1, ""), (2, "x")])
    );
}

#[test]
fn ids_stay_stable_after_delete() {
    let mut idx = SubsequenceIndex::new();
    let a = idx.insert("alpha");
    let b = idx.insert("beta");
    assert_eq!(idx.delete(a), Ok(()));
    let c = idx.insert("gamma");
    assert_eq!((a, b, c), (0, 1, 2));
    assert_eq!(idx.get(a), Ok("alpha"));
    assert_eq!(idx.get(b), Ok("beta"));
    assert_eq!(idx.get(c), Ok("gamma"));
    assert_eq!(idx.len(), 3);
}

#[test]
fn second_delete_fails_with_already_deleted() {
    let mut idx = SubsequenceIndex::new();
    idx.insert("one");
    idx.insert("two");
    assert_eq!(idx.delete(1), Ok(()));
    assert_eq!(idx.delete(1), Err(IndexError::AlreadyDeleted));
    assert_eq!(idx.delete(1), Err(IndexError::AlreadyDeleted));
    assert_eq!(idx.get(1), Ok("two"));
    assert_eq!(sorted(idx.search("o")), pairs(&[(0, "one")]));
}

#[test]
fn unknown_id_is_not_found() {
    let mut idx = SubsequenceIndex::new();
    assert_eq!(idx.delete(0), Err(IndexError::NotFound));
    assert_eq!(idx.get(0), Err(IndexError::NotFound));
    idx.insert("a");
    assert_eq!(idx.delete(5), Err(IndexError::NotFound));
    assert_eq!(idx.get(1), Err(IndexError::NotFound));
}

#[test]
fn store_keeps_values_of_deleted_records() {
    let mut s = RecordStore::new();
    assert_eq!(s.insert("kept"), 0);
    assert!(s.is_alive(0));
    assert_eq!(s.delete(0), Ok(()));
    assert!(!s.is_alive(0));
    assert_eq!(s.get(0), Ok("kept"));
    assert_eq!(s.delete(0), Err(IndexError::AlreadyDeleted));
    assert_eq!(s.delete(1), Err(IndexError::NotFound));
}

#[test]
fn linear_search_is_in_id_order() {
    let mut idx = SubsequenceIndex::new();
    for w in ["cab", "abc", "bca", "ab"] {
        idx.insert(w);
    }
    assert_eq!(idx.linear_search("ab"), pairs(&[(0, "cab"), (1, "abc"), (3, "ab")]));
}

#[test]
fn shared_prefixes_in_the_trie() {
    let mut t = TrieIndex::new();
    t.insert(0, "abc");
    t.insert(1, "abd");
    t.insert(2, "ab");
    t.insert(3, "xyz");
    let mut r = t.search("ab");
    r.sort();
    assert_eq!(r, vec![0, 1, 2]);
    let mut r = t.search("ad");
    r.sort();
    assert_eq!(r, vec![1]);
    t.delete(1, "abd");
    let mut r = t.search("ab");
    r.sort();
    assert_eq!(r, vec![0, 2]);
    assert!(t.search("ad").is_empty());
    t.insert(4, "abd");
    let mut r = t.search("d");
    r.sort();
    assert_eq!(r, vec![4]);
}

#[test]
fn trie_and_linear_search_agree() {
    let words = [
        "hello", "world", "help", "held", "yellow", "low", "wold", "hollow", "", "h", "lo",
        "hello", "mellow", "whirled",
    ];
    let queries = ["", "h", "l", "lo", "hlo", "wd", "ow", "hell", "ellow", "x", "hw", "oo", "ll"];
    let mut idx = SubsequenceIndex::new();
    let mut step: u64 = 0;
    for w in words.iter() {
        let id = idx.insert(w);
        step += 1;
        if step % 3 == 0 {
            assert_eq!(idx.delete(id - 1), Ok(()));
        }
        for q in queries.iter() {
            assert_eq!(sorted(idx.search(q)), idx.linear_search(q), "query {}", q);
        }
    }
    for id in 0..idx.len() {
        let _ = idx.delete(id);
        for q in queries.iter() {
            assert_eq!(sorted(idx.search(q)), idx.linear_search(q), "query {}", q);
        }
    }
    for q in queries.iter() {
        assert!(idx.search(q).is_empty());
    }
}
