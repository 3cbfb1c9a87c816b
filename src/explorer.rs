//! One level of the breadth-first search: which lookups a frontier asks for, how
//! their answers grow the tree, and where the goal turns up.

use vstd::prelude::*;
use crate::article::{any_mentions, find_text_for_topic_in_article, is_first_mention, Paragraph};
use crate::path_tree::{texts_view, PathTree, TreeNode};
use crate::topic::{lower_of, lowercase};

verus! {

/// A reference to follow: the topic it leads to (in lower case), the node whose
/// paragraph holds it, and that paragraph's text.
pub struct Lookup {
    pub topic: String,
    pub parent: usize,
    pub text: String,
}

/// An edge as the search sees it: (parent node, paragraph text, lower-case target).
pub type EdgeView = (usize, Seq<char>, Seq<char>);

pub open spec fn lookup_view(l: Lookup) -> EdgeView {
    (l.parent, l.text@, l.topic@)
}

pub open spec fn lookups_view(v: Seq<Lookup>) -> Seq<EdgeView> {
    v.map_values(|l: Lookup| lookup_view(l))
}

/// The edges of one paragraph of node `parent`, in order.
pub open spec fn paragraph_edges(p: Paragraph, parent: usize) -> Seq<EdgeView> {
    p.topics@.map_values(|t: String| (parent, p.text@, lower_of(t@)))
}

/// The edges of the paragraphs `ps` of node `parent`, in order.
pub open spec fn node_edges(ps: Seq<Paragraph>, parent: usize) -> Seq<EdgeView>
    decreases ps.len(),
{
    if ps.len() == 0 {
        Seq::empty()
    } else {
        node_edges(ps.drop_last(), parent) + paragraph_edges(ps.last(), parent)
    }
}

/// The edges of the frontier nodes, node after node.
pub open spec fn level_edges(nodes: Seq<TreeNode>, frontier: Seq<usize>) -> Seq<EdgeView>
    decreases frontier.len(),
{
    if frontier.len() == 0 {
        Seq::empty()
    } else {
        level_edges(nodes, frontier.drop_last()) + node_edges(
            nodes[frontier.last() as int].paragraphs@,
            frontier.last(),
        )
    }
}

/// The visited topics after walking `edges` from `visited`: each target not yet
/// there is added, in order.
pub open spec fn seen(edges: Seq<EdgeView>, visited: Seq<Seq<char>>) -> Seq<Seq<char>>
    decreases edges.len(),
{
    if edges.len() == 0 {
        visited
    } else {
        let s = seen(edges.drop_last(), visited);
        if s.contains(edges.last().2) {
            s
        } else {
            s.push(edges.last().2)
        }
    }
}

/// The edges of `edges` whose target was not visited when they were reached:
/// the lookups to make.
pub open spec fn fresh_edges(edges: Seq<EdgeView>, visited: Seq<Seq<char>>) -> Seq<EdgeView>
    decreases edges.len(),
{
    if edges.len() == 0 {
        Seq::empty()
    } else {
        let f = fresh_edges(edges.drop_last(), visited);
        if seen(edges.drop_last(), visited).contains(edges.last().2) {
            f
        } else {
            f.push(edges.last())
        }
    }
}

/// Whether `key` is among `visited`.
fn is_visited(visited: &Vec<String>, key: &String) -> (r: bool)
    ensures
        r == texts_view(visited@).contains(key@),
{
    let mut i: usize = 0;
    while i < visited.len()
        invariant
            i <= visited@.len(),
            forall|k: int| 0 <= k < i ==> visited@[k]@ != key@,
        decreases visited@.len() - i,
    {
        if visited[i] == *key {
            assert(texts_view(visited@)[i as int] == key@);
            return true;
        }
        i = i + 1;
    }
    assert(forall|k: int| 0 <= k < texts_view(visited@).len() ==> texts_view(visited@)[k] != key@);
    false
}

/// Walks the references of the frontier nodes in order and returns a lookup for
/// each one whose target was not visited yet, marking it visited.
pub fn dispatch_level(tree: &PathTree, frontier: &Vec<usize>, visited: &mut Vec<String>) -> (r:
    Vec<Lookup>)
    requires
        forall|i: int| 0 <= i < frontier@.len() ==> (#[trigger] frontier@[i]) < tree.nodes@.len(),
    ensures
        lookups_view(r@) == fresh_edges(level_edges(tree.nodes@, frontier@), texts_view(old(visited)@)),
        texts_view(final(visited)@) == seen(level_edges(tree.nodes@, frontier@), texts_view(old(visited)@)),
{
    let ghost v0 = texts_view(visited@);
    let ghost nodes = tree.nodes@;
    let mut r: Vec<Lookup> = Vec::new();
    let mut fi: usize = 0;
    while fi < frontier.len()
        invariant
            nodes == tree.nodes@,
            forall|i: int| 0 <= i < frontier@.len() ==> (#[trigger] frontier@[i]) < nodes.len(),
            fi <= frontier@.len(),
            lookups_view(r@) == fresh_edges(level_edges(nodes, frontier@.take(fi as int)), v0),
            texts_view(visited@) == seen(level_edges(nodes, frontier@.take(fi as int)), v0),
        decreases frontier@.len() - fi,
    {
        let n = frontier[fi];
        let ghost done_nodes = level_edges(nodes, frontier@.take(fi as int));
        let paragraphs = &tree.nodes[n].paragraphs;
        let mut pi: usize = 0;
        while pi < paragraphs.len()
            invariant
                nodes == tree.nodes@,
                n < nodes.len(),
                paragraphs == nodes[n as int].paragraphs,
                pi <= paragraphs@.len(),
                lookups_view(r@) == fresh_edges(
                    done_nodes + node_edges(paragraphs@.take(pi as int), n),
                    v0,
                ),
                texts_view(visited@) == seen(
                    done_nodes + node_edges(paragraphs@.take(pi as int), n),
                    v0,
                ),
            decreases paragraphs@.len() - pi,
        {
            let p = &paragraphs[pi];
            let ghost done_paras = done_nodes + node_edges(paragraphs@.take(pi as int), n);
            let mut ti: usize = 0;
            while ti < p.topics.len()
                invariant
                    ti <= p.topics@.len(),
                    lookups_view(r@) == fresh_edges(
                        done_paras + paragraph_edges(*p, n).take(ti as int),
                        v0,
                    ),
                    texts_view(visited@) == seen(
                        done_paras + paragraph_edges(*p, n).take(ti as int),
                        v0,
                    ),
                decreases p.topics@.len() - ti,
            {
                let ghost prev = done_paras + paragraph_edges(*p, n).take(ti as int);
                let ghost next = done_paras + paragraph_edges(*p, n).take(ti as int + 1);
                assert(next.drop_last() =~= prev);
                assert(next.last() == (n, p.text@, lower_of(p.topics@[ti as int]@)));
                let key = lowercase(p.topics[ti].as_str());
                if !is_visited(visited, &key) {
                    let ghost before_r = lookups_view(r@);
                    let ghost before_v = texts_view(visited@);
                    visited.push(key.clone());
                    r.push(Lookup { topic: key, parent: n, text: p.text.clone() });
                    assert(lookups_view(r@) =~= before_r.push(next.last()));
                    assert(texts_view(visited@) =~= before_v.push(next.last().2));
                }
                ti = ti + 1;
            }
            assert(paragraph_edges(*p, n).take(p.topics@.len() as int) =~= paragraph_edges(*p, n));
            assert(paragraphs@.take(pi as int + 1).drop_last() =~= paragraphs@.take(pi as int));
            assert(done_paras + paragraph_edges(*p, n) =~= done_nodes + node_edges(
                paragraphs@.take(pi as int + 1),
                n,
            ));
            pi = pi + 1;
        }
        assert(paragraphs@.take(paragraphs@.len() as int) =~= paragraphs@);
        assert(frontier@.take(fi as int + 1).drop_last() =~= frontier@.take(fi as int));
        assert(level_edges(nodes, frontier@.take(fi as int + 1)) =~= done_nodes + node_edges(
            paragraphs@,
            n,
        ));
        fi = fi + 1;
    }
    assert(frontier@.take(frontier@.len() as int) =~= frontier@);
    r
}

/// The node that an answered lookup becomes.
pub open spec fn child_node(l: Lookup, content: Vec<Paragraph>) -> TreeNode {
    TreeNode { topic: l.topic, paragraphs: content, link: Some((l.parent, l.text)) }
}

/// The nodes that the answers `results` to `lookups` give, in the order of the
/// lookups; a lookup answered with `None` gives none.
pub open spec fn grown(lookups: Seq<Lookup>, results: Seq<Option<Vec<Paragraph>>>) -> Seq<TreeNode>
    decreases lookups.len(),
{
    if lookups.len() == 0 {
        Seq::empty()
    } else {
        let prev = grown(lookups.drop_last(), results);
        match results[lookups.len() - 1] {
            Some(c) => prev.push(child_node(lookups.last(), c)),
            None => prev,
        }
    }
}

/// Adds a node for each lookup that was answered, in the order of the lookups,
/// and returns the new nodes' indices: the next frontier.
pub fn accept_level(
    tree: &mut PathTree,
    lookups: &Vec<Lookup>,
    results: Vec<Option<Vec<Paragraph>>>,
) -> (r: Vec<usize>)
    requires
        old(tree).wf(),
        results@.len() == lookups@.len(),
        forall|i: int| 0 <= i < lookups@.len() ==> (#[trigger] lookups@[i]).parent < old(tree).nodes@.len(),
    ensures
        final(tree).wf(),
        final(tree).nodes@ == old(tree).nodes@ + grown(lookups@, results@),
        r@ == Seq::new(grown(lookups@, results@).len(), |k: int| (old(tree).nodes@.len() + k) as usize),
{
    let ghost start = tree.nodes@;
    let ghost all = results@;
    let mut results = results;
    let mut r: Vec<usize> = Vec::new();
    let mut i: usize = 0;
    while i < lookups.len()
        invariant
            tree.wf(),
            i <= lookups@.len(),
            all.len() == lookups@.len(),
            results@ == all.subrange(i as int, all.len() as int),
            forall|j: int| 0 <= j < lookups@.len() ==> (#[trigger] lookups@[j]).parent < start.len(),
            tree.nodes@ == start + grown(lookups@.take(i as int), all),
            grown(lookups@.take(i as int), all).len() <= i,
            r@ == Seq::new(grown(lookups@.take(i as int), all).len(), |k: int| (start.len() + k) as usize),
        decreases lookups@.len() - i,
    {
        let ghost before = tree.nodes@;
        let ghost before_r = r@;
        assert(lookups@.take(i as int + 1).drop_last() =~= lookups@.take(i as int));
        let answer = results.remove(0);
        assert(answer == all[i as int]);
        match answer {
            Some(content) => {
                let l = &lookups[i];
                let node = TreeNode {
                    topic: l.topic.clone(),
                    paragraphs: content,
                    link: Some((l.parent, l.text.clone())),
                };
                let idx = tree.add(node);
                r.push(idx);
                assert(tree.nodes@ =~= start + grown(lookups@.take(i as int + 1), all));
                assert(r@ =~= Seq::new(
                    grown(lookups@.take(i as int + 1), all).len(),
                    |k: int| (start.len() + k) as usize,
                ));
            },
            None => {
                assert(tree.nodes@ =~= start + grown(lookups@.take(i as int + 1), all));
            },
        }
        assert(results@ =~= all.subrange(i as int + 1, all.len() as int));
        i = i + 1;
    }
    assert(lookups@.take(lookups@.len() as int) =~= lookups@);
    r
}

/// The frontier entry at `k` is the first whose node has a paragraph that links
/// to `goal`.
pub open spec fn is_first_goal(nodes: Seq<TreeNode>, frontier: Seq<usize>, goal: Seq<char>, k: int) -> bool {
    &&& 0 <= k < frontier.len()
    &&& any_mentions(nodes[frontier[k] as int].paragraphs@, goal)
    &&& forall|j: int| 0 <= j < k ==> !any_mentions(
        #[trigger] nodes[frontier[j] as int].paragraphs@,
        goal,
    )
}

/// The first frontier node, in frontier order, with a paragraph that links to
/// `goal`, and the text of its first such paragraph.
pub fn find_goal(tree: &PathTree, frontier: &Vec<usize>, goal: &str) -> (r: Option<(usize, String)>)
    requires
        forall|i: int| 0 <= i < frontier@.len() ==> (#[trigger] frontier@[i]) < tree.nodes@.len(),
    ensures
        r is None <==> forall|k: int| 0 <= k < frontier@.len() ==> !any_mentions(
            #[trigger] tree.nodes@[frontier@[k] as int].paragraphs@,
            goal@,
        ),
        r matches Some(found) ==> exists|k: int| (#[trigger] is_first_goal(tree.nodes@, frontier@, goal@, k))
            && found.0 == frontier@[k] && exists|i: int| is_first_mention(
                tree.nodes@[found.0 as int].paragraphs@,
                goal@,
                i,
            ) && found.1@ == (#[trigger] tree.nodes@[found.0 as int].paragraphs@[i]).text@,
{
    let mut k: usize = 0;
    while k < frontier.len()
        invariant
            k <= frontier@.len(),
            forall|i: int| 0 <= i < frontier@.len() ==> (#[trigger] frontier@[i]) < tree.nodes@.len(),
            forall|j: int| 0 <= j < k ==> !any_mentions(
                #[trigger] tree.nodes@[frontier@[j] as int].paragraphs@,
                goal@,
            ),
        decreases frontier@.len() - k,
    {
        let n = frontier[k];
        match find_text_for_topic_in_article(&tree.nodes[n].paragraphs, goal) {
            Some(text) => {
                assert(is_first_goal(tree.nodes@, frontier@, goal@, k as int));
                return Some((n, text));
            },
            None => {},
        }
        k = k + 1;
    }
    None
}

/// The edges of a node's paragraphs all start at that node.
proof fn lemma_node_edges_parent(ps: Seq<Paragraph>, parent: usize)
    ensures
        forall|j: int| 0 <= j < node_edges(ps, parent).len() ==> (#[trigger] node_edges(ps, parent)[j]).0 == parent,
    decreases ps.len(),
{
    if ps.len() > 0 {
        lemma_node_edges_parent(ps.drop_last(), parent);
        let a = node_edges(ps.drop_last(), parent);
        let b = paragraph_edges(ps.last(), parent);
        assert forall|j: int| 0 <= j < node_edges(ps, parent).len() implies (#[trigger] node_edges(
            ps,
            parent,
        )[j]).0 == parent by {
            if j >= a.len() {
                assert(node_edges(ps, parent)[j] == b[j - a.len()]);
            } else {
                assert(node_edges(ps, parent)[j] == a[j]);
            }
        }
    }
}

/// The edges of a level start at nodes below `bound` when its frontier does.
pub proof fn lemma_level_edges_parent(nodes: Seq<TreeNode>, frontier: Seq<usize>, bound: int)
    requires
        forall|i: int| 0 <= i < frontier.len() ==> (#[trigger] frontier[i]) < bound,
    ensures
        forall|j: int| 0 <= j < level_edges(nodes, frontier).len() ==> (#[trigger] level_edges(nodes, frontier)[j]).0 < bound,
    decreases frontier.len(),
{
    if frontier.len() > 0 {
        let last = frontier.last();
        assert(frontier[frontier.len() - 1] < bound);
        lemma_level_edges_parent(nodes, frontier.drop_last(), bound);
        lemma_node_edges_parent(nodes[last as int].paragraphs@, last);
        let a = level_edges(nodes, frontier.drop_last());
        let b = node_edges(nodes[last as int].paragraphs@, last);
        assert forall|j: int| 0 <= j < level_edges(nodes, frontier).len() implies (
        #[trigger] level_edges(nodes, frontier)[j]).0 < bound by {
            if j >= a.len() {
                assert(level_edges(nodes, frontier)[j] == b[j - a.len()]);
            } else {
                assert(level_edges(nodes, frontier)[j] == a[j]);
            }
        }
    }
}

/// The lookups to make are some of the edges walked, so they start where those do.
pub proof fn lemma_fresh_edges_parent(edges: Seq<EdgeView>, visited: Seq<Seq<char>>, bound: int)
    requires
        forall|j: int| 0 <= j < edges.len() ==> (#[trigger] edges[j]).0 < bound,
    ensures
        forall|j: int| 0 <= j < fresh_edges(edges, visited).len() ==> (#[trigger] fresh_edges(edges, visited)[j]).0 < bound,
    decreases edges.len(),
{
    if edges.len() > 0 {
        assert(edges[edges.len() - 1].0 < bound);
        assert forall|j: int| 0 <= j < edges.drop_last().len() implies (
        #[trigger] edges.drop_last()[j]).0 < bound by {
            assert(edges.drop_last()[j] == edges[j]);
        }
        lemma_fresh_edges_parent(edges.drop_last(), visited, bound);
        let f = fresh_edges(edges.drop_last(), visited);
        assert forall|j: int| 0 <= j < fresh_edges(edges, visited).len() implies (
        #[trigger] fresh_edges(edges, visited)[j]).0 < bound by {
            if j < f.len() {
                assert(fresh_edges(edges, visited)[j] == f[j]);
            }
        }
    }
}

/// Walking edges only adds to the visited topics.
pub proof fn lemma_seen_grows(edges: Seq<EdgeView>, visited: Seq<Seq<char>>)
    ensures
        forall|k: Seq<char>| visited.contains(k) ==> (#[trigger] seen(edges, visited).contains(k)),
    decreases edges.len(),
{
    if edges.len() > 0 {
        lemma_seen_grows(edges.drop_last(), visited);
        let s = seen(edges.drop_last(), visited);
        assert forall|k: Seq<char>| s.contains(k) implies (#[trigger] s.push(edges.last().2).contains(k)) by {
            let i = choose|i: int| 0 <= i < s.len() && s[i] == k;
            assert(s.push(edges.last().2)[i] == k);
        }
    }
}

/// Each topic looked up is visited after the walk, none was visited before it,
/// and none is looked up twice.
pub proof fn lemma_fresh_edges_keys(edges: Seq<EdgeView>, visited: Seq<Seq<char>>)
    ensures
        forall|j: int| 0 <= j < fresh_edges(edges, visited).len() ==> seen(edges, visited).contains(
            (#[trigger] fresh_edges(edges, visited)[j]).2,
        ),
        forall|j: int| 0 <= j < fresh_edges(edges, visited).len() ==> !visited.contains(
            (#[trigger] fresh_edges(edges, visited)[j]).2,
        ),
        forall|i: int, j: int| 0 <= i < j < fresh_edges(edges, visited).len() ==> (
        #[trigger] fresh_edges(edges, visited)[i]).2 != (#[trigger] fresh_edges(edges, visited)[j]).2,
    decreases edges.len(),
{
    if edges.len() > 0 {
        let prev = edges.drop_last();
        let e = edges.last();
        lemma_fresh_edges_keys(prev, visited);
        lemma_seen_grows(prev, visited);
        let s = seen(prev, visited);
        let f = fresh_edges(prev, visited);
        lemma_seen_grows(seq![e], s);
        assert(seq![e].drop_last() =~= Seq::<EdgeView>::empty());
        assert(forall|k: Seq<char>| s.contains(k) ==> seen(edges, visited).contains(k)) by {
            assert forall|k: Seq<char>| s.contains(k) implies seen(edges, visited).contains(k) by {
                if !s.contains(e.2) {
                    let i = choose|i: int| 0 <= i < s.len() && s[i] == k;
                    assert(s.push(e.2)[i] == k);
                }
            }
        }
        if !s.contains(e.2) {
            assert(s.push(e.2)[s.len() as int] == e.2);
            assert(fresh_edges(edges, visited) == f.push(e));
            assert forall|j: int| 0 <= j < fresh_edges(edges, visited).len() implies seen(
                edges,
                visited,
            ).contains((#[trigger] fresh_edges(edges, visited)[j]).2) by {
                if j < f.len() {
                    assert(fresh_edges(edges, visited)[j] == f[j]);
                    assert(s.contains(f[j].2));
                }
            }
            assert forall|j: int| 0 <= j < fresh_edges(edges, visited).len() implies !visited.contains(
                (#[trigger] fresh_edges(edges, visited)[j]).2,
            ) by {
                if j < f.len() {
                    assert(fresh_edges(edges, visited)[j] == f[j]);
                }
            }
            assert forall|i: int, j: int| 0 <= i < j < fresh_edges(edges, visited).len() implies (
            #[trigger] fresh_edges(edges, visited)[i]).2 != (#[trigger] fresh_edges(
                edges,
                visited,
            )[j]).2 by {
                assert(fresh_edges(edges, visited)[i] == f[i]);
                if j < f.len() {
                    assert(fresh_edges(edges, visited)[j] == f[j]);
                } else {
                    assert(s.contains(f[i].2));
                }
            }
        } else {
            assert(fresh_edges(edges, visited) == f);
            assert forall|j: int| 0 <= j < fresh_edges(edges, visited).len() implies seen(
                edges,
                visited,
            ).contains((#[trigger] fresh_edges(edges, visited)[j]).2) by {
                assert(s.contains(f[j].2));
            }
        }
    }
}

/// A topic is looked up at most once over a search: the lookups of a later level
/// never repeat those of an earlier one, as long as the visited topics that the
/// later level starts from kept all those that the earlier level left.
pub proof fn lemma_dispatched_once(
    earlier: Seq<EdgeView>,
    v_earlier: Seq<Seq<char>>,
    later: Seq<EdgeView>,
    v_later: Seq<Seq<char>>,
)
    requires
        forall|k: Seq<char>| (#[trigger] seen(earlier, v_earlier).contains(k)) ==> v_later.contains(k),
    ensures
        forall|i: int, j: int|
            0 <= i < fresh_edges(earlier, v_earlier).len() && 0 <= j < fresh_edges(later, v_later).len()
                ==> (#[trigger] fresh_edges(earlier, v_earlier)[i]).2 != (#[trigger] fresh_edges(
                later,
                v_later,
            )[j]).2,
{
    lemma_fresh_edges_keys(earlier, v_earlier);
    lemma_fresh_edges_keys(later, v_later);
}

/// Every node that answers give is linked to a parent.
pub proof fn lemma_grown_linked(lookups: Seq<Lookup>, results: Seq<Option<Vec<Paragraph>>>)
    ensures
        forall|k: int| 0 <= k < grown(lookups, results).len() ==> (#[trigger] grown(lookups, results)[k]).link is Some,
    decreases lookups.len(),
{
    if lookups.len() > 0 {
        lemma_grown_linked(lookups.drop_last(), results);
        let prev = grown(lookups.drop_last(), results);
        assert forall|k: int| 0 <= k < grown(lookups, results).len() implies (#[trigger] grown(
            lookups,
            results,
        )[k]).link is Some by {
            if k < prev.len() {
                assert(grown(lookups, results)[k] == prev[k]);
            }
        }
    }
}

/// The targets of some edges.
pub open spec fn edge_keys(edges: Seq<EdgeView>) -> Seq<Seq<char>> {
    edges.map_values(|e: EdgeView| e.2)
}

/// The visited topics after a walk are those before it, then the topics looked
/// up, in order.
pub proof fn lemma_seen_is_visited_then_fresh(edges: Seq<EdgeView>, visited: Seq<Seq<char>>)
    ensures
        seen(edges, visited) == visited + edge_keys(fresh_edges(edges, visited)),
    decreases edges.len(),
{
    if edges.len() == 0 {
        assert(visited + edge_keys(fresh_edges(edges, visited)) =~= visited);
    } else {
        lemma_seen_is_visited_then_fresh(edges.drop_last(), visited);
        let f = fresh_edges(edges.drop_last(), visited);
        if !seen(edges.drop_last(), visited).contains(edges.last().2) {
            assert(edge_keys(f.push(edges.last())) =~= edge_keys(f).push(edges.last().2));
            assert(visited + edge_keys(f).push(edges.last().2) =~= (visited + edge_keys(f)).push(
                edges.last().2,
            ));
        }
    }
}

/// Visited topics stay free of repeats over a walk.
pub proof fn lemma_seen_no_duplicates(edges: Seq<EdgeView>, visited: Seq<Seq<char>>)
    requires
        visited.no_duplicates(),
    ensures
        seen(edges, visited).no_duplicates(),
    decreases edges.len(),
{
    if edges.len() > 0 {
        lemma_seen_no_duplicates(edges.drop_last(), visited);
        let s = seen(edges.drop_last(), visited);
        if !s.contains(edges.last().2) {
            let t = s.push(edges.last().2);
            assert forall|i: int, j: int| 0 <= i < t.len() && 0 <= j < t.len() && i != j implies t[i]
                != t[j] by {
                if i < s.len() && j < s.len() {
                    assert(t[i] == s[i] && t[j] == s[j]);
                } else if i < s.len() {
                    assert(t[i] == s[i]);
                } else if j < s.len() {
                    assert(t[j] == s[j]);
                }
            }
        }
    }
}

} // verus!
