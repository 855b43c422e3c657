use std::collections::HashSet;

use subseq_index::generator::{
    guaranteed_search, random_search, random_subsequence, random_word, Generator, Pool,
};
use subseq_index::matcher::contains_subsequence;
use subseq_index::query::{Query, WordOrTag};

fn segments() -> Vec<String> {
    ["ab", "cd", "efg"].iter().map(|s| s.to_string()).collect()
}

fn is_drop_of(w: &str, segs: &[String]) -> bool {
    let parts: Vec<&str> = w.split('-').filter(|p| !p.is_empty()).collect();
    !parts.is_empty() && parts.len() <= 4 && parts.iter().all(|p| segs.iter().any(|s| s == p))
}

#[test]
fn random_subsequence_is_a_shorter_subsequence() {
    let mut rng = rand::thread_rng();
    for _ in 0..200 {
        let s = "subsequence";
        let r = random_subsequence(&mut rng, s);
        assert!(!r.is_empty());
        assert!(r.chars().count() <= s.chars().count());
        assert!(contains_subsequence(s, &r), "{} in {}", r, s);
    }
    assert_eq!(random_subsequence(&mut rng, ""), "");
    assert_eq!(random_subsequence(&mut rng, "x"), "x");
}

#[test]
fn random_words_use_the_given_characters() {
    let mut rng = rand::thread_rng();
    let mut lengths = HashSet::new();
    for _ in 0..500 {
        let w = random_word(&mut rng, "xyz");
        let n = w.chars().count();
        assert!((1..=7).contains(&n));
        assert!(w.chars().all(|c| "xyz".contains(c)));
        lengths.insert(n);
    }
    assert!(lengths.len() > 1);
}

#[test]
fn pools_have_the_asked_sizes() {
    let mut rng = rand::thread_rng();
    let segs = segments();
    let pool = Pool::new(&mut rng, 20, 5, &segs);
    for _ in 0..100 {
        assert!(is_drop_of(pool.get_word(&mut rng), &segs));
        assert!(is_drop_of(pool.get_tag(&mut rng), &segs));
    }
}

#[test]
fn guaranteed_searches_match_their_add() {
    let mut rng = rand::thread_rng();
    let words: Vec<String> = ["hello", "world", "again"].iter().map(|s| s.to_string()).collect();
    let tags: Vec<String> = ["home", "urgent"].iter().map(|s| s.to_string()).collect();
    let add = Query::Add(words.clone(), tags.clone());
    for _ in 0..200 {
        match guaranteed_search(&mut rng, &add) {
            Query::Search(params) => {
                assert!(!params.is_empty() && params.len() <= 7);
                for p in params.iter() {
                    match p {
                        WordOrTag::Word(w) => assert!(words.iter().any(|v| contains_subsequence(v, w))),
                        WordOrTag::Tag(t) => assert!(tags.iter().any(|v| contains_subsequence(v, t))),
                    }
                }
            },
            other => panic!("not a search: {:?}", other),
        }
    }
}

#[test]
fn random_searches_have_one_to_seven_tokens() {
    let mut rng = rand::thread_rng();
    for _ in 0..200 {
        match random_search(&mut rng, "ab") {
            Query::Search(params) => {
                assert!((1..=7).contains(&params.len()));
                assert!(params.iter().any(|p| matches!(p, WordOrTag::Word(_))));
            },
            other => panic!("not a search: {:?}", other),
        }
    }
}

#[test]
fn workload_ids_are_consistent() {
    let mut rng = rand::thread_rng();
    let segs = segments();
    let mut g = Generator::new(&mut rng, 10, 4, 3, &segs, "abc");
    let mut next: u64 = 0;
    let mut active: HashSet<u64> = HashSet::new();
    let mut adds = 0;
    for _ in 0..2000 {
        let q = g.get_query(&mut rng);
        match &q {
            Query::Add(w, t) => {
                assert!((1..=4).contains(&w.len()));
                assert!(t.len() <= 3);
                assert!(w.iter().chain(t.iter()).all(|s| is_drop_of(s, &segs)));
                active.insert(next);
                next += 1;
                adds += 1;
                assert!(q.to_string().starts_with("add \""));
            },
            Query::Done(id) => {
                assert!(active.remove(id), "done of an inactive id {}", id);
                assert_eq!(q.to_string(), format!("done {}", id));
            },
            Query::Search(params) => {
                assert!(adds > 0);
                assert!(params.len() <= 7);
                assert!(q.to_string().starts_with("search"));
            },
        }
    }
    assert!(adds > 0);
}

#[test]
fn guaranteed_search_of_one_letter_word() {
    let mut rng = rand::thread_rng();
    let add = Query::Add(vec!["a".to_string()], vec![]);
    for _ in 0..50 {
        match guaranteed_search(&mut rng, &add) {
            Query::Search(params) => {
                assert_eq!(params.len(), 1);
                assert!(matches!(&params[0], WordOrTag::Word(w) if w == "a"));
            },
            other => panic!("not a search: {:?}", other),
        }
    }
}

#[test]
fn guaranteed_search_counts_words_and_tags() {
    let mut rng = rand::thread_rng();
    let words: Vec<String> = ["abc", "def"].iter().map(|s| s.to_string()).collect();
    let tags: Vec<String> = ["ghi"].iter().map(|s| s.to_string()).collect();
    let add = Query::Add(words.clone(), tags.clone());
    for _ in 0..200 {
        match guaranteed_search(&mut rng, &add) {
            Query::Search(params) => {
                let nw = params.iter().filter(|p| matches!(p, WordOrTag::Word(_))).count();
                let nt = params.len() - nw;
                assert!((1..=2).contains(&nw));
                assert!(nt <= 1);
                let mut word_tokens: Vec<&String> = params
                    .iter()
                    .filter_map(|p| if let WordOrTag::Word(w) = p { Some(w) } else { None })
                    .collect();
                word_tokens.sort_by_key(|w| if contains_subsequence("abc", w) { 0 } else { 1 });
                for (i, w) in word_tokens.iter().enumerate() {
                    assert!(!w.is_empty());
                    assert!(contains_subsequence(&words[i], w), "{} from {}", w, words[i]);
                }
            },
            other => panic!("not a search: {:?}", other),
        }
    }
}

#[test]
fn random_search_counts_words_and_tags() {
    let mut rng = rand::thread_rng();
    for _ in 0..200 {
        match random_search(&mut rng, "ab") {
            Query::Search(params) => {
                let nw = params.iter().filter(|p| matches!(p, WordOrTag::Word(_))).count();
                assert!((1..=4).contains(&nw));
                assert!(params.len() - nw <= 3);
            },
            other => panic!("not a search: {:?}", other),
        }
    }
}

#[test]
fn generator_with_empty_pools_can_be_made() {
    let mut rng = rand::thread_rng();
    let _g = Generator::new(&mut rng, 0, 0, 5, &segments(), "ab");
}

#[test]
fn history_bound_of_one_still_gives_searches() {
    let mut rng = rand::thread_rng();
    let mut g = Generator::new(&mut rng, 3, 2, 1, &segments(), "ab");
    let mut searches = 0;
    for _ in 0..500 {
        if let Query::Search(params) = g.get_query(&mut rng) {
            assert!(!params.is_empty());
            searches += 1;
        }
    }
    assert!(searches > 0);
}
