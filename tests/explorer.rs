use wikistory::article::{find_text_for_topic_in_article, paragraph_mentions, Paragraph};
use wikistory::explorer::{accept_level, dispatch_level, find_goal, Lookup};
use wikistory::path_tree::{build_final_text, PathTree, TreeNode};
use wikistory::search::{fit_answers, lookup_topics, Search, Step};

fn para(text: &str, topics: &[&str]) -> Paragraph {
    Paragraph { text: text.to_owned(), topics: topics.iter().map(|t| t.to_string()).collect() }
}

fn node(topic: &str, paragraphs: Vec<Paragraph>, link: Option<(usize, &str)>) -> TreeNode {
    TreeNode {
        topic: topic.to_owned(),
        paragraphs,
        link: link.map(|(p, t)| (p, t.to_owned())),
    }
}

#[test]
fn dispatch_skips_visited_and_repeated_topics() {
    let mut tree = PathTree::new();
    tree.add(node("root", vec![para("p1", &["A", "b", "Root"]), para("p2", &["a", "c"])], None));
    tree.add(node("b", vec![para("q", &["C", "d"])], Some((0, "p1"))));
    let mut visited = vec!["root".to_owned()];
    let lookups = dispatch_level(&tree, &vec![0, 1], &mut visited);
    let got: Vec<(String, usize, String)> =
        lookups.into_iter().map(|l| (l.topic, l.parent, l.text)).collect();
    assert_eq!(
        got,
        vec![
            ("a".to_owned(), 0, "p1".to_owned()),
            ("b".to_owned(), 0, "p1".to_owned()),
            ("c".to_owned(), 0, "p2".to_owned()),
            ("d".to_owned(), 1, "q".to_owned()),
        ]
    );
    assert_eq!(visited, vec!["root", "a", "b", "c", "d"]);
    let again = dispatch_level(&tree, &vec![0, 1], &mut visited);
    assert!(again.is_empty());
}

#[test]
fn accept_keeps_answered_lookups_in_order() {
    let mut tree = PathTree::new();
    tree.add(node("root", vec![], None));
    let lookups = vec![
        Lookup { topic: "x".to_owned(), parent: 0, text: "t1".to_owned() },
        Lookup { topic: "y".to_owned(), parent: 0, text: "t2".to_owned() },
        Lookup { topic: "z".to_owned(), parent: 0, text: "t3".to_owned() },
    ];
    let frontier = accept_level(&mut tree, &lookups, vec![Some(vec![]), None, Some(vec![para("z", &[])])]);
    assert_eq!(frontier, vec![1, 2]);
    assert_eq!(tree.nodes.len(), 3);
    assert_eq!(tree.nodes[1].topic, "x");
    assert_eq!(tree.nodes[2].topic, "z");
    assert_eq!(tree.nodes[2].link, Some((0, "t3".to_owned())));
}

#[test]
fn goal_is_the_first_in_frontier_order() {
    let mut tree = PathTree::new();
    tree.add(node("root", vec![], None));
    tree.add(node("m", vec![para("no", &["x"]), para("m goal", &["GOAL"])], Some((0, "r"))));
    tree.add(node("n", vec![para("n goal", &["goal"])], Some((0, "r"))));
    assert_eq!(find_goal(&tree, &vec![2, 1], "goal"), Some((2, "n goal".to_owned())));
    assert_eq!(find_goal(&tree, &vec![1, 2], "goal"), Some((1, "m goal".to_owned())));
    assert_eq!(find_goal(&tree, &vec![0], "goal"), None);
}

#[test]
fn paragraph_topics_compare_in_lower_case() {
    let p = para("t", &["Milky Way"]);
    assert!(paragraph_mentions(&p, "milky way"));
    assert!(!paragraph_mentions(&p, "Milky Way"));
    let ps = vec![para("first", &["a"]), para("second", &["B"]), para("third", &["b"])];
    assert_eq!(find_text_for_topic_in_article(&ps, "b"), Some("second".to_owned()));
    assert_eq!(find_text_for_topic_in_article(&ps, "c"), None);
}

#[test]
fn story_read_back_from_a_chain() {
    let mut tree = PathTree::new();
    tree.add(node("a", vec![], None));
    tree.add(node("b", vec![], Some((0, "A to B"))));
    tree.add(node("c", vec![], Some((1, "B to C"))));
    assert_eq!(
        build_final_text(&tree, 2, "C to goal", "goal"),
        "-> (a to b)\r\nA to B\r\n-> (b to c)\r\nB to C\r\n-> (c to goal)\r\nC to goal\r\n"
    );
    assert_eq!(build_final_text(&tree, 0, "A to goal", "goal"), "-> (a to goal)\r\nA to goal\r\n");
}

fn step_text(step: &Step) -> String {
    match step {
        Step::Found(s) => format!("found {}", s),
        Step::DepthExceeded(m) => format!("depth {}", m),
        Step::Next => "next".to_owned(),
    }
}

#[test]
fn search_steps_level_by_level() {
    let root = vec![para("to b", &["B", "c"])];
    let mut search = Search::begin("a".to_owned(), "goal".to_owned(), root, 2);
    assert_eq!(step_text(&search.check()), "next");
    let lookups = search.lookups();
    let topics = lookup_topics(&lookups);
    assert_eq!(topics, vec!["b", "c"]);
    assert_eq!(search.visited, vec!["a", "b", "c"]);
    let step = search.advance(&lookups, vec![Some(vec![para("b text", &["a", "d"])]), None]);
    assert_eq!(step_text(&step), "next");
    assert_eq!(search.level, 1);
    assert_eq!(search.frontier, vec![1]);
    let lookups = search.lookups();
    assert_eq!(lookup_topics(&lookups), vec!["d"]);
    let step = search.advance(&lookups, vec![Some(vec![para("d text", &["Goal"])])]);
    assert_eq!(
        step_text(&step),
        "found -> (a to b)\r\nto b\r\n-> (b to d)\r\nb text\r\n-> (d to goal)\r\nd text\r\n"
    );
}

#[test]
fn search_stops_at_the_depth_bound() {
    let mut search = Search::begin("a".to_owned(), "goal".to_owned(), vec![para("x", &["b"])], 1);
    let lookups = search.lookups();
    let step = search.advance(&lookups, vec![Some(vec![])]);
    assert_eq!(
        step_text(&step),
        "depth Reached depth of <1> without finding <goal> from <a>. Stopping search."
    );
    let search = Search::begin("a".to_owned(), "goal".to_owned(), vec![], 0);
    assert_eq!(
        step_text(&search.check()),
        "depth Reached depth of <0> without finding <goal> from <a>. Stopping search."
    );
}

#[test]
fn answers_are_fitted_to_the_lookups() {
    let short = fit_answers(vec![Some(vec![])], 3);
    assert_eq!(short.len(), 3);
    assert!(short[0].is_some() && short[1].is_none() && short[2].is_none());
    let long = fit_answers(vec![None, Some(vec![]), Some(vec![])], 1);
    assert_eq!(long.len(), 1);
    assert!(long[0].is_none());
}
