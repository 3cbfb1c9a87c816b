use std::cell::RefCell;
use std::collections::HashMap;
use wikistory::article::{ArticleProvider, Paragraph};
use wikistory::story_builder::{
    decimal_text, depth_text, suggestions_text, validate_topics, StoryBuilder,
};

const EXPECTED_SUGGESTION: &str = "Cannot find wikipedia article for <not-found>, try one of the following suggestions:\r\n\
- Suggestion 1\r\n\
- Suggestion 2\r\n\
- Suggestion 3\r\n";

fn three_suggestions() -> Vec<String> {
    vec![
        "Suggestion 1".to_owned(),
        "Suggestion 2".to_owned(),
        "Suggestion 3".to_owned(),
    ]
}

fn para(text: &str, topics: &[&str]) -> Paragraph {
    Paragraph {
        text: text.to_owned(),
        topics: topics.iter().map(|t| t.to_string()).collect(),
    }
}

/// A source that fails the test on any call.
struct NoCallProvider {}

impl ArticleProvider for NoCallProvider {
    fn get(&self, _topic: &str) -> Option<Vec<Paragraph>> {
        panic!("get() should not get called in this test.")
    }
    fn search(&self, _topic: &str) -> Vec<String> {
        panic!("search() should not get called in this test.")
    }
}

/// A source over a fixed graph; every lookup is counted.
struct GraphProvider {
    articles: HashMap<String, Vec<(String, Vec<String>)>>,
    calls: RefCell<Vec<String>>,
    forbidden: Vec<String>,
}

impl GraphProvider {
    fn new(articles: &[(&str, Vec<(&str, Vec<&str>)>)]) -> GraphProvider {
        let mut map = HashMap::new();
        for (topic, paras) in articles {
            let paras = paras
                .iter()
                .map(|(t, links)| (t.to_string(), links.iter().map(|l| l.to_string()).collect()))
                .collect();
            map.insert(topic.to_string(), paras);
        }
        GraphProvider { articles: map, calls: RefCell::new(vec![]), forbidden: vec![] }
    }

    fn calls_for(&self, topic: &str) -> usize {
        self.calls.borrow().iter().filter(|c| c.as_str() == topic).count()
    }
}

impl ArticleProvider for GraphProvider {
    fn get(&self, topic: &str) -> Option<Vec<Paragraph>> {
        if self.forbidden.iter().any(|f| f == topic) {
            panic!("looked up {}", topic);
        }
        self.calls.borrow_mut().push(topic.to_owned());
        self.articles.get(topic).map(|paras| {
            paras
                .iter()
                .map(|(t, links)| Paragraph { text: t.clone(), topics: links.clone() })
                .collect()
        })
    }
    fn search(&self, _topic: &str) -> Vec<String> {
        three_suggestions()
    }
}

#[test]
fn build_suggestions_msg_is_working() {
    struct TestProvider {}
    impl ArticleProvider for TestProvider {
        fn get(&self, _topic: &str) -> Option<Vec<Paragraph>> {
            panic!("get() should never be called in this test.");
        }
        fn search(&self, _topic: &str) -> Vec<String> {
            three_suggestions()
        }
    }
    let story_builder = StoryBuilder::new(TestProvider {});
    assert_eq!(story_builder.build_suggestions_msg("not-found"), EXPECTED_SUGGESTION);
}

#[test]
fn build_story_cannot_find_first_article_suggest() {
    let provider = GraphProvider::new(&[("found", vec![])]);
    let story_builder = StoryBuilder::new(provider);
    assert_eq!(
        story_builder.build_story("not-found", "found"),
        Err(EXPECTED_SUGGESTION.to_owned())
    );
}

#[test]
fn build_story_cannot_find_second_article_suggest() {
    let provider = GraphProvider::new(&[("found", vec![])]);
    let story_builder = StoryBuilder::new(provider);
    assert_eq!(
        story_builder.build_story("found", "not-found"),
        Err(EXPECTED_SUGGESTION.to_owned())
    );
}

#[test]
fn build_story_from_same_start_and_end_should_err() {
    let story_builder = StoryBuilder::new(NoCallProvider {});
    assert_eq!(
        story_builder.build_story("similar topic", "similar topic"),
        Err("No story to build; same start and end topics.".to_owned())
    );
}

#[test]
fn build_story_empty_start_topic_should_err() {
    let story_builder = StoryBuilder::new(NoCallProvider {});
    assert_eq!(
        story_builder.build_story("", "Other topic"),
        Err("Missing start topic.".to_owned())
    );
}

#[test]
fn build_story_empty_end_topic_should_err() {
    let story_builder = StoryBuilder::new(NoCallProvider {});
    assert_eq!(
        story_builder.build_story("First topic", ""),
        Err("Missing end topic.".to_owned())
    );
}

#[test]
fn build_story_end_topic_found_in_start_article() {
    let provider = GraphProvider::new(&[
        (
            "start",
            vec![
                ("Paragraph 1", vec!["topic 1", "topic 2", "topic 3"]),
                ("Paragraph 2", vec!["topic 3", "end", "topic 5"]),
                ("Paragraph 3", vec!["topic 3", "topic 1", "topic 5"]),
            ],
        ),
        ("end", vec![("Paragraph for end.", vec![])]),
    ]);
    let story_builder = StoryBuilder::new(provider);
    assert_eq!(
        story_builder.build_story("start", "end"),
        Ok("-> (start to end)\r\nParagraph 2\r\n".to_owned())
    );
}

#[test]
fn same_topic_in_another_case_is_rejected_without_lookups() {
    let story_builder = StoryBuilder::new(NoCallProvider {});
    assert_eq!(
        story_builder.build_story("Similar Topic", "similar TOPIC"),
        Err("No story to build; same start and end topics.".to_owned())
    );
}

#[test]
fn empty_start_and_end_are_rejected_without_lookups() {
    let story_builder = StoryBuilder::new(NoCallProvider {});
    assert_eq!(story_builder.build_story("", ""), Err("Missing start topic.".to_owned()));
}

#[test]
fn topics_are_looked_up_in_lower_case() {
    let provider = GraphProvider::new(&[
        ("start", vec![("Start Text", vec!["End"])]),
        ("end", vec![]),
    ]);
    let story_builder = StoryBuilder::new(provider);
    assert_eq!(
        story_builder.build_story("START", "END"),
        Ok("-> (start to end)\r\nStart Text\r\n".to_owned())
    );
}

#[test]
fn each_topic_is_looked_up_once() {
    let provider = GraphProvider::new(&[
        ("start", vec![("s", vec!["A", "b"])]),
        ("a", vec![("a links itself", vec!["a", "b", "start"])]),
        ("b", vec![("b links back", vec!["a", "B"])]),
        ("goal", vec![]),
    ]);
    let story_builder = StoryBuilder::new(provider);
    let r = story_builder.build_story("start", "goal");
    assert_eq!(
        r,
        Err("Reached depth of <5> without finding <goal> from <start>. Stopping search.".to_owned())
    );
    let provider = &story_builder.article_provider;
    assert_eq!(provider.calls_for("start"), 1);
    assert_eq!(provider.calls_for("goal"), 1);
    assert_eq!(provider.calls_for("a"), 1);
    assert_eq!(provider.calls_for("b"), 1);
    assert_eq!(provider.calls.borrow().len(), 4);
}

#[test]
fn goal_at_first_level_stops_before_the_next() {
    let mut provider = GraphProvider::new(&[
        ("start", vec![("Start links x", vec!["x"])]),
        ("x", vec![("X links y", vec!["y"]), ("X mentions end", vec!["end"])]),
        ("end", vec![]),
    ]);
    provider.forbidden.push("y".to_owned());
    let story_builder = StoryBuilder::new(provider);
    assert_eq!(
        story_builder.build_story("start", "end"),
        Ok("-> (start to x)\r\nStart links x\r\n-> (x to end)\r\nX mentions end\r\n".to_owned())
    );
    assert_eq!(story_builder.article_provider.calls_for("y"), 0);
}

/// Every article links to two topics never seen before.
struct EndlessProvider {
    calls: RefCell<usize>,
}

impl ArticleProvider for EndlessProvider {
    fn get(&self, topic: &str) -> Option<Vec<Paragraph>> {
        *self.calls.borrow_mut() += 1;
        let a = format!("{}a", topic);
        let b = format!("{}b", topic);
        Some(vec![para("more", &[a.as_str(), b.as_str()])])
    }
    fn search(&self, _topic: &str) -> Vec<String> {
        vec![]
    }
}

#[test]
fn endless_graph_stops_at_the_depth_bound() {
    let story_builder = StoryBuilder::new(EndlessProvider { calls: RefCell::new(0) });
    assert_eq!(
        story_builder.build_story("root", "goal"),
        Err("Reached depth of <5> without finding <goal> from <root>. Stopping search.".to_owned())
    );
    // start and end, then 2, 4, 8, 16 and 32 articles over five more levels
    assert_eq!(*story_builder.article_provider.calls.borrow(), 64);
}

#[test]
fn story_over_a_chain_of_three_articles() {
    let provider = GraphProvider::new(&[
        ("a", vec![("A to B", vec!["b"])]),
        ("b", vec![("B to C", vec!["c"])]),
        ("c", vec![("nothing here", vec![]), ("C to goal", vec!["Goal"])]),
        ("goal", vec![]),
    ]);
    let story_builder = StoryBuilder::new(provider);
    assert_eq!(
        story_builder.build_story("a", "goal"),
        Ok("-> (a to b)\r\nA to B\r\n-> (b to c)\r\nB to C\r\n-> (c to goal)\r\nC to goal\r\n"
            .to_owned())
    );
}

#[test]
fn missing_topics_mid_search_are_dropped() {
    let provider = GraphProvider::new(&[
        ("start", vec![("to nowhere", vec!["nowhere"]), ("to m", vec!["m"])]),
        ("m", vec![("m to end", vec!["end"])]),
        ("end", vec![]),
    ]);
    let story_builder = StoryBuilder::new(provider);
    assert_eq!(
        story_builder.build_story("start", "end"),
        Ok("-> (start to m)\r\nto m\r\n-> (m to end)\r\nm to end\r\n".to_owned())
    );
}

#[test]
fn suggestions_are_listed_in_order() {
    let s = vec!["b".to_owned(), "a".to_owned()];
    assert_eq!(
        suggestions_text("x", &s),
        "Cannot find wikipedia article for <x>, try one of the following suggestions:\r\n- b\r\n- a\r\n"
    );
}

#[test]
fn no_suggestions_gives_the_header_only() {
    assert_eq!(
        suggestions_text("x", &vec![]),
        "Cannot find wikipedia article for <x>, try one of the following suggestions:\r\n"
    );
}

#[test]
fn depth_bound_in_decimal() {
    assert_eq!(decimal_text(0), "0");
    assert_eq!(decimal_text(7), "7");
    assert_eq!(decimal_text(42), "42");
    assert_eq!(decimal_text(100), "100");
    assert_eq!(decimal_text(255), "255");
    assert_eq!(
        depth_text(12, "start", "end"),
        "Reached depth of <12> without finding <end> from <start>. Stopping search."
    );
}

#[test]
fn depth_bound_is_configurable() {
    let mut story_builder = StoryBuilder::new(EndlessProvider { calls: RefCell::new(0) });
    story_builder.max_depth = 2;
    assert_eq!(
        story_builder.build_story("root", "goal"),
        Err("Reached depth of <2> without finding <goal> from <root>. Stopping search.".to_owned())
    );
    assert_eq!(*story_builder.article_provider.calls.borrow(), 8);
}

#[test]
fn validation_of_lowered_topics() {
    let e = String::new();
    let a = "a".to_owned();
    let b = "b".to_owned();
    assert_eq!(validate_topics(&e, &a), Some("Missing start topic.".to_owned()));
    assert_eq!(validate_topics(&a, &e), Some("Missing end topic.".to_owned()));
    assert_eq!(
        validate_topics(&a, &a),
        Some("No story to build; same start and end topics.".to_owned())
    );
    assert_eq!(validate_topics(&a, &b), None);
}

/// Answers single lookups, but no batch of them.
struct NoBatchProvider {}

impl ArticleProvider for NoBatchProvider {
    fn get(&self, topic: &str) -> Option<Vec<Paragraph>> {
        if topic == "start" {
            Some(vec![para("to x", &["x"])])
        } else {
            Some(vec![para("x to end", &["end"])])
        }
    }
    fn search(&self, _topic: &str) -> Vec<String> {
        vec![]
    }
    fn get_all(&self, _topics: &Vec<String>) -> Vec<Option<Vec<Paragraph>>> {
        vec![]
    }
}

#[test]
fn missing_batch_answers_count_as_no_article() {
    let story_builder = StoryBuilder::new(NoBatchProvider {});
    assert_eq!(
        story_builder.build_story("start", "end"),
        Err("Reached depth of <5> without finding <end> from <start>. Stopping search.".to_owned())
    );
}

#[test]
fn batch_lookup_defaults_to_single_lookups() {
    let provider = GraphProvider::new(&[("a", vec![("A", vec![])])]);
    let answers = provider.get_all(&vec!["a".to_owned(), "zz".to_owned()]);
    assert_eq!(answers.len(), 2);
    assert_eq!(answers[0].as_ref().map(|p| p[0].text.clone()), Some("A".to_owned()));
    assert!(answers[1].is_none());
}
