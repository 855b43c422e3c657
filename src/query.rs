//! The commands of a workload against the index, and their one-line text
//! form: `add "<words>" #<tag>...`, `done <id>`, `search <token>...`.
use vstd::prelude::*;

verus! {

/// A search token: a bare word, or a tag written with a leading `#`.
#[derive(Debug)]
pub enum WordOrTag {
    Word(String),
    Tag(String),
}

/// One command of a workload.
#[derive(Debug)]
pub enum Query {
    /// Adds a record described by its words and its tags.
    Add(Vec<String>, Vec<String>),
    /// Marks the record with this id as done.
    Done(u64),
    /// Searches for every token.
    Search(Vec<WordOrTag>),
}

/// The decimal digit for `d`, which is below ten.
pub open spec fn digit_char(d: nat) -> char {
    if d == 0 { '0' } else if d == 1 { '1' } else if d == 2 { '2' } else if d == 3 { '3' }
    else if d == 4 { '4' } else if d == 5 { '5' } else if d == 6 { '6' } else if d == 7 { '7' }
    else if d == 8 { '8' } else { '9' }
}

/// `n` in decimal, without leading zeros.
pub open spec fn decimal(n: nat) -> Seq<char>
    decreases n,
{
    if n < 10 {
        seq![digit_char(n)]
    } else {
        decimal(n / 10) + seq![digit_char(n % 10)]
    }
}

/// The strings of `v`, as character sequences.
pub open spec fn texts(v: Seq<String>) -> Seq<Seq<char>> {
    v.map_values(|s: String| s@)
}

/// `ws` joined with single spaces.
pub open spec fn joined(ws: Seq<Seq<char>>) -> Seq<char>
    decreases ws.len(),
{
    if ws.len() == 0 {
        Seq::empty()
    } else if ws.len() == 1 {
        ws[0]
    } else {
        joined(ws.drop_last()) + seq![' '] + ws.last()
    }
}

/// Each of `ts` written as ` #tag`, one after the other.
pub open spec fn tag_suffix(ts: Seq<Seq<char>>) -> Seq<char>
    decreases ts.len(),
{
    if ts.len() == 0 {
        Seq::empty()
    } else {
        tag_suffix(ts.drop_last()) + seq![' ', '#'] + ts.last()
    }
}

/// Each of `ps` written after a space, one after the other.
pub open spec fn token_suffix(ps: Seq<WordOrTag>) -> Seq<char>
    decreases ps.len(),
{
    if ps.len() == 0 {
        Seq::empty()
    } else {
        token_suffix(ps.drop_last()) + seq![' '] + ps.last().text()
    }
}

impl WordOrTag {
    /// The token as written: the word itself, or `#` and the tag.
    pub open spec fn text(&self) -> Seq<char> {
        match self {
            WordOrTag::Word(w) => w@,
            WordOrTag::Tag(t) => seq!['#'] + t@,
        }
    }

    /// The token as written: the word itself, or `#` and the tag.
    pub fn to_string(&self) -> (r: String)
        ensures
            r@ == self.text(),
    {
        match self {
            WordOrTag::Word(w) => w.clone(),
            WordOrTag::Tag(t) => {
                let mut s = String::new();
                s.append("#");
                s.append(t.as_str());
                proof {
                    reveal_strlit("#");
                    assert(s@ =~= seq!['#'] + t@);
                }
                s
            },
        }
    }
}

impl Query {
    /// The command's line of text.
    pub open spec fn text(&self) -> Seq<char> {
        match self {
            Query::Add(words, tags) => seq!['a', 'd', 'd', ' ', '"'] + joined(texts(words@)) + seq!['"']
                + tag_suffix(texts(tags@)),
            Query::Done(id) => seq!['d', 'o', 'n', 'e', ' '] + decimal(*id as nat),
            Query::Search(params) => seq!['s', 'e', 'a', 'r', 'c', 'h'] + token_suffix(params@),
        }
    }

    /// The command's line of text.
    pub fn to_string(&self) -> (r: String)
        ensures
            r@ == self.text(),
    {
        let mut s = String::new();
        match self {
            Query::Add(words, tags) => {
                s.append("add \"");
                proof {
                    reveal_strlit("add \"");
                }
                let mut i: usize = 0;
                while i < words.len()
                    invariant
                        i <= words@.len(),
                        s@ == seq!['a', 'd', 'd', ' ', '"'] + joined(texts(words@.take(i as int))),
                    decreases words@.len() - i,
                {
                    if i > 0 {
                        s.append(" ");
                    }
                    s.append(words[i].as_str());
                    proof {
                        reveal_strlit(" ");
                        let t = texts(words@.take(i + 1));
                        assert(t.drop_last() =~= texts(words@.take(i as int)));
                        assert(t.last() == words@[i as int]@);
                        if i == 0 {
                            assert(joined(texts(words@.take(0))) =~= Seq::<char>::empty());
                        }
                    }
                    i = i + 1;
                }
                s.append("\"");
                proof {
                    reveal_strlit("\"");
                    assert(words@.take(words@.len() as int) =~= words@);
                }
                let ghost head = s@;
                let mut j: usize = 0;
                while j < tags.len()
                    invariant
                        j <= tags@.len(),
                        s@ == head + tag_suffix(texts(tags@.take(j as int))),
                    decreases tags@.len() - j,
                {
                    s.append(" #");
                    s.append(tags[j].as_str());
                    proof {
                        reveal_strlit(" #");
                        let t = texts(tags@.take(j + 1));
                        assert(t.drop_last() =~= texts(tags@.take(j as int)));
                        assert(t.last() == tags@[j as int]@);
                        assert(s@ =~= head + tag_suffix(t));
                    }
                    j = j + 1;
                }
                proof {
                    assert(tags@.take(tags@.len() as int) =~= tags@);
                    assert(texts(tags@.take(0)) =~= Seq::<Seq<char>>::empty());
                }
            },
            Query::Done(id) => {
                s.append("done ");
                let d = decimal_string(*id);
                s.append(d.as_str());
                proof {
                    reveal_strlit("done ");
                }
            },
            Query::Search(params) => {
                s.append("search");
                proof {
                    reveal_strlit("search");
                    assert(params@.take(0) =~= Seq::<WordOrTag>::empty());
                }
                let mut j: usize = 0;
                while j < params.len()
                    invariant
                        j <= params@.len(),
                        s@ == seq!['s', 'e', 'a', 'r', 'c', 'h'] + token_suffix(params@.take(j as int)),
                    decreases params@.len() - j,
                {
                    s.append(" ");
                    let t = params[j].to_string();
                    s.append(t.as_str());
                    proof {
                        reveal_strlit(" ");
                        let p = params@.take(j + 1);
                        assert(p.drop_last() =~= params@.take(j as int));
                        assert(p.last() == params@[j as int]);
                    }
                    j = j + 1;
                }
                proof {
                    assert(params@.take(params@.len() as int) =~= params@);
                }
            },
        }
        s
    }
}

/// The digit `d`, below ten, as a one-character string.
fn digit_string(d: u64) -> (r: String)
    requires
        d < 10,
    ensures
        r@ == seq![digit_char(d as nat)],
{
    let mut s = String::new();
    if d == 0 { s.append("0"); proof { reveal_strlit("0"); } }
    else if d == 1 { s.append("1"); proof { reveal_strlit("1"); } }
    else if d == 2 { s.append("2"); proof { reveal_strlit("2"); } }
    else if d == 3 { s.append("3"); proof { reveal_strlit("3"); } }
    else if d == 4 { s.append("4"); proof { reveal_strlit("4"); } }
    else if d == 5 { s.append("5"); proof { reveal_strlit("5"); } }
    else if d == 6 { s.append("6"); proof { reveal_strlit("6"); } }
    else if d == 7 { s.append("7"); proof { reveal_strlit("7"); } }
    else if d == 8 { s.append("8"); proof { reveal_strlit("8"); } }
    else { s.append("9"); proof { reveal_strlit("9"); } }
    assert(s@ =~= seq![digit_char(d as nat)]);
    s
}

/// `n` in decimal.
pub fn decimal_string(n: u64) -> (r: String)
    ensures
        r@ == decimal(n as nat),
    decreases n,
{
    if n < 10 {
        digit_string(n)
    } else {
        let mut s = decimal_string(n / 10);
        let d = digit_string(n % 10);
        s.append(d.as_str());
        s
    }
}

} // verus!
