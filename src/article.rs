//! Articles as the reference source hands them out: paragraphs of text, each with
//! the topics it refers to.

use vstd::prelude::*;
use crate::topic::{lower_of, lowercase};

verus! {

/// One paragraph of an article: its text and the topics it links to, in order.
pub struct Paragraph {
    pub text: String,
    pub topics: Vec<String>,
}

/// An article whose paragraphs can be read.
pub trait Article {
    fn get_paragraphs(&self) -> &Vec<Paragraph>;

    fn get_topic(&self) -> &str;
}

/// The source that resolves topics. Its answers are taken as they come: the
/// library asks nothing of them.
pub trait ArticleProvider {
    /// The paragraphs of the article on `topic`, or `None` where there is none.
    fn get(&self, topic: &str) -> Option<Vec<Paragraph>>;

    /// Topics that might be what was meant by `topic`.
    fn search(&self, topic: &str) -> Vec<String>;

    /// The articles on `topics`, one answer for each, in order. A provider that
    /// can look topics up side by side does so here.
    fn get_all(&self, topics: &Vec<String>) -> (r: Vec<Option<Vec<Paragraph>>>) {
        let mut r: Vec<Option<Vec<Paragraph>>> = Vec::new();
        let mut i: usize = 0;
        while i < topics.len()
            invariant
                i <= topics@.len(),
            decreases topics@.len() - i,
        {
            r.push(self.get(topics[i].as_str()));
            i = i + 1;
        }
        r
    }
}

/// `p` links to a topic whose lower-case form is `key`.
pub open spec fn mentions(p: Paragraph, key: Seq<char>) -> bool {
    exists|j: int| 0 <= j < p.topics@.len() && lower_of(#[trigger] p.topics@[j]@) == key
}

/// The paragraph at `i` is the first of `ps` that links to `key`.
pub open spec fn is_first_mention(ps: Seq<Paragraph>, key: Seq<char>, i: int) -> bool {
    &&& 0 <= i < ps.len()
    &&& mentions(ps[i], key)
    &&& forall|k: int| 0 <= k < i ==> !mentions(#[trigger] ps[k], key)
}

/// Whether some paragraph of `ps` links to `key`.
pub open spec fn any_mentions(ps: Seq<Paragraph>, key: Seq<char>) -> bool {
    exists|i: int| 0 <= i < ps.len() && mentions(#[trigger] ps[i], key)
}

/// Whether `p` links to `key`, topics being compared in lower case.
pub fn paragraph_mentions(p: &Paragraph, key: &str) -> (r: bool)
    ensures
        r == mentions(*p, key@),
{
    let wanted = String::from_str(key);
    let mut j: usize = 0;
    while j < p.topics.len()
        invariant
            j <= p.topics@.len(),
            wanted@ == key@,
            forall|k: int| 0 <= k < j ==> lower_of(#[trigger] p.topics@[k]@) != key@,
        decreases p.topics@.len() - j,
    {
        let t = lowercase(p.topics[j].as_str());
        if t == wanted {
            assert(lower_of(p.topics@[j as int]@) == key@);
            return true;
        }
        j = j + 1;
    }
    false
}

/// The text of the first paragraph of `paragraphs` that links to `topic`.
pub fn find_text_for_topic_in_article(paragraphs: &Vec<Paragraph>, topic: &str) -> (r: Option<String>)
    ensures
        r is None <==> !any_mentions(paragraphs@, topic@),
        r matches Some(t) ==> exists|i: int|
            is_first_mention(paragraphs@, topic@, i) && t@ == (#[trigger] paragraphs@[i]).text@,
{
    let mut i: usize = 0;
    while i < paragraphs.len()
        invariant
            i <= paragraphs@.len(),
            forall|k: int| 0 <= k < i ==> !mentions(#[trigger] paragraphs@[k], topic@),
        decreases paragraphs@.len() - i,
    {
        if paragraph_mentions(&paragraphs[i], topic) {
            assert(is_first_mention(paragraphs@, topic@, i as int));
            return Some(paragraphs[i].text.clone());
        }
        i = i + 1;
    }
    None
}

} // verus!
