use subseq_index::query::{decimal_string, Query, WordOrTag};

fn strings(v: &[&str]) -> Vec<String> {
    v.iter().map(|s| s.to_string()).collect()
}

#[test]
fn add_line() {
    let q = Query::Add(strings(&["buy", "milk"]), strings(&["home", "food"]));
    assert_eq!(q.to_string(), "add \"buy milk\" #home #food");
    let q = Query::Add(strings(&["one"]), vec![]);
    assert_eq!(q.to_string(), "add \"one\"");
    let q = Query::Add(vec![], vec![]);
    assert_eq!(q.to_string(), "add \"\"");
}

#[test]
fn done_line() {
    assert_eq!(Query::Done(0).to_string(), "done 0");
    assert_eq!(Query::Done(42).to_string(), "done 42");
    assert_eq!(Query::Done(u64::MAX).to_string(), "done 18446744073709551615");
}

#[test]
fn search_line() {
    let q = Query::Search(vec![
        WordOrTag::Word("mlk".to_string()),
        WordOrTag::Tag("hm".to_string()),
    ]);
    assert_eq!(q.to_string(), "search mlk #hm");
    assert_eq!(Query::Search(vec![]).to_string(), "search");
}

#[test]
fn token_text() {
    assert_eq!(WordOrTag::Word("w".to_string()).to_string(), "w");
    assert_eq!(WordOrTag::Tag("t".to_string()).to_string(), "#t");
}

#[test]
fn decimal_digits() {
    assert_eq!(decimal_string(7), "7");
    assert_eq!(decimal_string(10), "10");
    assert_eq!(decimal_string(1000000), "1000000");
}
