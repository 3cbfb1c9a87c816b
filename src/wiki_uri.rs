//! Addresses of wiki pages: a topic is written with underscores for spaces.

use vstd::prelude::*;

verus! {

/// `topic` with each space replaced by an underscore.
pub open spec fn wiki_str(topic: Seq<char>) -> Seq<char> {
    topic.map_values(|c: char| if c == ' ' { '_' } else { c })
}

/// `topic` as a wiki page name: each space becomes an underscore.
pub fn to_wiki_str(topic: &str) -> (r: String)
    ensures
        r@ == wiki_str(topic@),
{
    proof {
        reveal_strlit("_");
    }
    let n = topic.unicode_len();
    let mut r = String::new();
    let mut i: usize = 0;
    while i < n
        invariant
            i <= n,
            n == topic@.len(),
            r@ == wiki_str(topic@.take(i as int)),
        decreases n - i,
    {
        proof {
            reveal_strlit("_");
        }
        if topic.get_char(i) == ' ' {
            r.append("_");
        } else {
            r.append(topic.substring_char(i, i + 1));
        }
        assert(topic@.take(i as int + 1) =~= topic@.take(i as int).push(topic@[i as int]));
        assert(wiki_str(topic@.take(i as int + 1)) =~= wiki_str(topic@.take(i as int)) + seq![
            if topic@[i as int] == ' ' { '_' } else { topic@[i as int] },
        ]);
        assert(topic@.subrange(i as int, i as int + 1) =~= seq![topic@[i as int]]);
        i = i + 1;
    }
    assert(topic@.take(n as int) =~= topic@);
    r
}

/// The address of the article page on `topic`.
pub open spec fn article_uri_of(topic: Seq<char>) -> Seq<char> {
    "https://en.wikipedia.org/wiki/"@ + wiki_str(topic)
}

/// The address of the search page for `topic`.
pub open spec fn search_uri_of(topic: Seq<char>) -> Seq<char> {
    "https://en.wikipedia.org/w/index.php?title=Special:Search&fulltext=1&search="@ + wiki_str(topic)
}

pub fn article_uri(topic: &str) -> (r: String)
    ensures
        r@ == article_uri_of(topic@),
{
    let mut r = String::from_str("https://en.wikipedia.org/wiki/");
    let t = to_wiki_str(topic);
    r.append(t.as_str());
    r
}

pub fn search_uri(topic: &str) -> (r: String)
    ensures
        r@ == search_uri_of(topic@),
{
    let mut r = String::from_str(
        "https://en.wikipedia.org/w/index.php?title=Special:Search&fulltext=1&search=",
    );
    let t = to_wiki_str(topic);
    r.append(t.as_str());
    r
}

} // verus!
