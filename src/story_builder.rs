//! The search itself: from a start topic, level by level, until an article that
//! refers to the end topic is found or the depth bound is reached.

use vstd::prelude::*;
use crate::article::{is_first_mention, ArticleProvider};
use crate::path_tree::{links_backward, story_text, texts_view, TreeNode};
use crate::search::{fit_answers, lookup_topics, step_is, Search, Step};
use crate::topic::{lower_of, lowercase};

verus! {

/// The error for two topics, already in lower case, that cannot make a story:
/// either is empty, or both are the same.
pub open spec fn validation_error(start: Seq<char>, end: Seq<char>) -> Option<Seq<char>> {
    if start.len() == 0 {
        Some("Missing start topic."@)
    } else if end.len() == 0 {
        Some("Missing end topic."@)
    } else if start == end {
        Some("No story to build; same start and end topics."@)
    } else {
        None
    }
}

/// One decimal digit.
pub open spec fn digit_text(d: int) -> Seq<char> {
    if d == 0 {
        "0"@
    } else if d == 1 {
        "1"@
    } else if d == 2 {
        "2"@
    } else if d == 3 {
        "3"@
    } else if d == 4 {
        "4"@
    } else if d == 5 {
        "5"@
    } else if d == 6 {
        "6"@
    } else if d == 7 {
        "7"@
    } else if d == 8 {
        "8"@
    } else {
        "9"@
    }
}

/// `n` written in decimal.
pub open spec fn decimal(n: nat) -> Seq<char>
    decreases n,
{
    if n < 10 {
        digit_text(n as int)
    } else {
        decimal(n / 10) + digit_text((n % 10) as int)
    }
}

/// One line per suggestion, each a bullet.
pub open spec fn suggestion_lines(s: Seq<Seq<char>>) -> Seq<char>
    decreases s.len(),
{
    if s.len() == 0 {
        Seq::empty()
    } else {
        suggestion_lines(s.drop_last()) + "- "@ + s.last() + "\r\n"@
    }
}

/// The error for a topic that could not be found, with what was suggested.
pub open spec fn suggestions_msg(topic: Seq<char>, suggestions: Seq<Seq<char>>) -> Seq<char> {
    "Cannot find wikipedia article for <"@ + topic
        + ">, try one of the following suggestions:\r\n"@ + suggestion_lines(suggestions)
}

/// `m` is the error for `topic` with some list of suggestions.
pub open spec fn is_suggestions_msg(m: Seq<char>, topic: Seq<char>) -> bool {
    exists|s: Seq<Seq<char>>| (#[trigger] suggestions_msg(topic, s)) == m
}

/// The error for a search from `start` that reached its depth bound without
/// finding `end`.
pub open spec fn depth_msg(max_depth: nat, start: Seq<char>, end: Seq<char>) -> Seq<char> {
    "Reached depth of <"@ + decimal(max_depth) + "> without finding <"@ + end + "> from <"@
        + start + ">. Stopping search."@
}

/// `r` is the error `m`.
pub open spec fn fails_with(r: Result<String, String>, m: Seq<char>) -> bool {
    r matches Err(e) && e@ == m
}

/// `nodes` is a search tree grown from `start`: its root, the first node, is
/// the start topic, and every other node links to an earlier one.
pub open spec fn grown_from(nodes: Seq<TreeNode>, start: Seq<char>) -> bool {
    &&& nodes.len() >= 1
    &&& nodes[0].topic@ == start
    &&& nodes[0].link is None
    &&& links_backward(nodes)
    &&& forall|j: int| 0 < j < nodes.len() ==> (#[trigger] nodes[j]).link is Some
}

/// `s` is the story that a search tree grown from `start` tells, down to a node
/// whose first paragraph that refers to `goal` reads `t`.
pub open spec fn is_story(s: Seq<char>, start: Seq<char>, goal: Seq<char>) -> bool {
    exists|nodes: Seq<TreeNode>, i: int, t: Seq<char>|
        (#[trigger] story_text(nodes, i, t, goal)) == s && grown_from(nodes, start) && 0 <= i
            < nodes.len() && exists|p: int|
            is_first_mention(nodes[i].paragraphs@, goal, p) && t == (
            #[trigger] nodes[i].paragraphs@[p]).text@
}

fn digit_str(d: u8) -> (r: &'static str)
    requires
        d < 10,
    ensures
        r@ == digit_text(d as int),
{
    if d == 0 {
        "0"
    } else if d == 1 {
        "1"
    } else if d == 2 {
        "2"
    } else if d == 3 {
        "3"
    } else if d == 4 {
        "4"
    } else if d == 5 {
        "5"
    } else if d == 6 {
        "6"
    } else if d == 7 {
        "7"
    } else if d == 8 {
        "8"
    } else {
        "9"
    }
}

/// `n` in decimal.
pub fn decimal_text(n: u8) -> (r: String)
    ensures
        r@ == decimal(n as nat),
{
    let mut r = String::new();
    if n >= 100 {
        r.append(digit_str(n / 100));
        assert(decimal((n / 100) as nat) == digit_text((n / 100) as int));
        assert(decimal((n / 10) as nat) == decimal(((n / 10) / 10) as nat) + digit_text(
            ((n / 10) % 10) as int,
        ));
        assert((n / 10) / 10 == n / 100);
    }
    if n >= 10 {
        r.append(digit_str((n / 10) % 10));
        if n < 100 {
            assert(decimal((n / 10) as nat) == digit_text((n / 10) as int));
            assert((n / 10) % 10 == n / 10);
        }
        assert(r@ == decimal((n / 10) as nat));
    }
    r.append(digit_str(n % 10));
    assert(n >= 10 ==> decimal(n as nat) == decimal((n / 10) as nat) + digit_text((n % 10) as int));
    r
}

/// The error for `start` and `end` (in lower case) if they cannot make a story.
pub fn validate_topics(start: &String, end: &String) -> (r: Option<String>)
    ensures
        match r {
            Some(m) => validation_error(start@, end@) == Some(m@),
            None => validation_error(start@, end@) is None,
        },
{
    if start.as_str().is_empty() {
        Some(String::from_str("Missing start topic."))
    } else if end.as_str().is_empty() {
        Some(String::from_str("Missing end topic."))
    } else if *start == *end {
        Some(String::from_str("No story to build; same start and end topics."))
    } else {
        None
    }
}

/// The error for `topic`, listing `suggestions` in order.
pub fn suggestions_text(topic: &str, suggestions: &Vec<String>) -> (r: String)
    ensures
        r@ == suggestions_msg(topic@, texts_view(suggestions@)),
{
    let mut r = String::from_str("Cannot find wikipedia article for <");
    r.append(topic);
    r.append(">, try one of the following suggestions:\r\n");
    let ghost header = r@;
    let mut i: usize = 0;
    while i < suggestions.len()
        invariant
            i <= suggestions@.len(),
            header == "Cannot find wikipedia article for <"@ + topic@
                + ">, try one of the following suggestions:\r\n"@,
            r@ == header + suggestion_lines(texts_view(suggestions@).take(i as int)),
        decreases suggestions@.len() - i,
    {
        r.append("- ");
        r.append(suggestions[i].as_str());
        r.append("\r\n");
        assert(texts_view(suggestions@).take(i as int + 1).drop_last() =~= texts_view(
            suggestions@,
        ).take(i as int));
        i = i + 1;
    }
    assert(texts_view(suggestions@).take(suggestions@.len() as int) =~= texts_view(suggestions@));
    r
}

/// The error for a search from `start` to `end` that reached `max_depth`.
pub fn depth_text(max_depth: u8, start: &str, end: &str) -> (r: String)
    ensures
        r@ == depth_msg(max_depth as nat, start@, end@),
{
    let mut r = String::from_str("Reached depth of <");
    let d = decimal_text(max_depth);
    r.append(d.as_str());
    r.append("> without finding <");
    r.append(end);
    r.append("> from <");
    r.append(start);
    r.append(">. Stopping search.");
    r
}

/// Builds stories over the articles of `article_provider`, looking at most
/// `max_depth` levels of references beyond the start article.
pub struct StoryBuilder<P: ArticleProvider> {
    pub article_provider: P,
    pub max_depth: u8,
}

impl<P: ArticleProvider> StoryBuilder<P> {
    pub fn new(article_provider: P) -> (r: StoryBuilder<P>)
        ensures
            r.article_provider == article_provider,
            r.max_depth == 5,
    {
        StoryBuilder { article_provider, max_depth: 5 }
    }

    /// The error for `topic`, with the suggestions that the provider has for it.
    pub fn build_suggestions_msg(&self, topic: &str) -> (r: String)
        ensures
            is_suggestions_msg(r@, topic@),
    {
        let suggestions = self.article_provider.search(topic);
        let r = suggestions_text(topic, &suggestions);
        assert(suggestions_msg(topic@, texts_view(suggestions@)) == r@);
        r
    }

    /// The story from `start_topic` to `end_topic`, topics being taken in lower
    /// case: the chain of references, found breadth first, from the start
    /// article to the first paragraph that refers to the end topic.
    pub fn build_story(&self, start_topic: &str, end_topic: &str) -> (r: Result<String, String>)
        ensures
            start_topic@.len() == 0 ==> fails_with(r, "Missing start topic."@),
            start_topic@.len() > 0 && end_topic@.len() == 0 ==> fails_with(r, "Missing end topic."@),
            start_topic@.len() > 0 && lower_of(start_topic@) == lower_of(end_topic@) ==> fails_with(
                r,
                "No story to build; same start and end topics."@,
            ),
            validation_error(lower_of(start_topic@), lower_of(end_topic@)) matches Some(m) ==> r
                matches Err(e) && e@ == m,
            validation_error(lower_of(start_topic@), lower_of(end_topic@)) is None ==> match r {
                Ok(s) => is_story(s@, lower_of(start_topic@), lower_of(end_topic@)),
                Err(e) => e@ == depth_msg(
                    self.max_depth as nat,
                    lower_of(start_topic@),
                    lower_of(end_topic@),
                )
                    || is_suggestions_msg(e@, lower_of(start_topic@))
                    || is_suggestions_msg(e@, lower_of(end_topic@)),
            },
    {
        let start = lowercase(start_topic);
        let end = lowercase(end_topic);
        match validate_topics(&start, &end) {
            Some(m) => {
                return Err(m);
            },
            None => {},
        }
        let root = match self.article_provider.get(start.as_str()) {
            Some(c) => c,
            None => {
                return Err(self.build_suggestions_msg(start.as_str()));
            },
        };
        match self.article_provider.get(end.as_str()) {
            Some(_) => {},
            None => {
                return Err(self.build_suggestions_msg(end.as_str()));
            },
        }
        let mut search = Search::begin(start, end, root, self.max_depth);
        let mut step = search.check();
        while step.is_next()
            invariant
                search.wf(),
                step_is(
                    step,
                    search.tree.nodes@,
                    search.frontier@,
                    search.level,
                    search.max_depth,
                    search.start@,
                    search.goal@,
                ),
                search.start@ == lower_of(start_topic@),
                search.goal@ == lower_of(end_topic@),
                search.max_depth == self.max_depth,
                validation_error(lower_of(start_topic@), lower_of(end_topic@)) is None,
                start_topic@.len() > 0,
                end_topic@.len() > 0,
            decreases search.max_depth - search.level,
        {
            let lookups = search.lookups();
            let topics = lookup_topics(&lookups);
            let answers = fit_answers(self.article_provider.get_all(&topics), topics.len());
            step = search.advance(&lookups, answers);
        }
        match step {
            Step::Found(story) => Ok(story),
            Step::DepthExceeded(m) => Err(m),
            Step::Next => {
                // the loop above ends only on another step
                assert(false);
                Err(String::new())
            },
        }
    }
}

} // verus!
