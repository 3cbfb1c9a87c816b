//! A breadth-first search as a state machine: each step dispatches the
//! lookups of the next level, takes their answers, and says whether the goal
//! was found, the depth bound reached, or the search goes on.

use vstd::prelude::*;
use crate::article::{is_first_mention, Paragraph};
use crate::explorer::{
    accept_level, dispatch_level, edge_keys, find_goal, fresh_edges, grown, is_first_goal,
    lemma_fresh_edges_parent, lemma_grown_linked, lemma_level_edges_parent,
    lemma_seen_is_visited_then_fresh, lemma_seen_no_duplicates, level_edges, lookups_view, Lookup,
};
use crate::path_tree::{build_final_text, story_text, texts_view, PathTree, TreeNode};
use crate::story_builder::{depth_msg, depth_text, grown_from};

verus! {

/// What a search step came to.
pub enum Step {
    /// The story to the goal.
    Found(String),
    /// The error for a search that reached its depth bound.
    DepthExceeded(String),
    /// The search goes on with another level.
    Next,
}

impl Step {
    pub fn is_next(&self) -> (r: bool)
        ensures
            r == (self is Next),
    {
        match self {
            Step::Next => true,
            _ => false,
        }
    }
}

/// `r` is what a search stands at with the tree `nodes`, whose current level
/// `level` is `frontier`: the story to the first frontier node, in order, with a
/// paragraph that refers to `goal`, told to that node's first such paragraph;
/// else the depth error once `level` reached `max_depth`; else another level.
pub open spec fn step_is(
    r: Step,
    nodes: Seq<TreeNode>,
    frontier: Seq<usize>,
    level: u8,
    max_depth: u8,
    start: Seq<char>,
    goal: Seq<char>,
) -> bool {
    if exists|k: int| is_first_goal(nodes, frontier, goal, k) {
        (r matches Step::Found(s) && exists|k: int, p: int|
            #[trigger] is_first_goal(nodes, frontier, goal, k) && is_first_mention(
                nodes[frontier[k] as int].paragraphs@,
                goal,
                p,
            ) && s@ == story_text(
                nodes,
                frontier[k] as int,
                (#[trigger] nodes[frontier[k] as int].paragraphs@[p]).text@,
                goal,
            ))
    } else if level >= max_depth {
        (r matches Step::DepthExceeded(m) && m@ == depth_msg(max_depth as nat, start, goal))
    } else {
        r is Next
    }
}

/// A search from `start` to `goal`, at `level`, looking at most `max_depth`
/// levels beyond the start article.
pub struct Search {
    pub tree: PathTree,
    pub frontier: Vec<usize>,
    /// Every topic ever looked up in this search, the start topic first.
    pub visited: Vec<String>,
    pub level: u8,
    pub max_depth: u8,
    pub start: String,
    pub goal: String,
}

impl Search {
    /// The tree is grown from the start topic, the frontier is made of its
    /// nodes, and no topic was looked up twice.
    pub open spec fn wf(&self) -> bool {
        &&& self.tree.wf()
        &&& grown_from(self.tree.nodes@, self.start@)
        &&& forall|i: int| 0 <= i < self.frontier@.len() ==> (#[trigger] self.frontier@[i])
            < self.tree.nodes@.len()
        &&& texts_view(self.visited@).no_duplicates()
        &&& texts_view(self.visited@).len() >= 1
        &&& texts_view(self.visited@)[0] == self.start@
        &&& self.level <= self.max_depth
    }

    /// The search at its first level: the start article alone.
    pub fn begin(start: String, goal: String, root: Vec<Paragraph>, max_depth: u8) -> (r: Search)
        ensures
            r.wf(),
            r.tree.nodes@ == seq![TreeNode { topic: start, paragraphs: root, link: None }],
            r.frontier@ == seq![0usize],
            texts_view(r.visited@) == seq![start@],
            r.level == 0,
            r.max_depth == max_depth,
            r.start == start,
            r.goal == goal,
    {
        let mut tree = PathTree::new();
        let first = tree.add(TreeNode { topic: start.clone(), paragraphs: root, link: None });
        let mut frontier: Vec<usize> = Vec::new();
        frontier.push(first);
        let mut visited: Vec<String> = Vec::new();
        visited.push(start.clone());
        let r = Search { tree, frontier, visited, level: 0, max_depth, start, goal };
        assert(texts_view(r.visited@) =~= seq![start@]);
        assert(r.tree.nodes@ =~= seq![TreeNode { topic: start, paragraphs: r.tree.nodes@[0].paragraphs, link: None }]);
        assert(texts_view(r.visited@).no_duplicates());
        r
    }

    /// Where the search stands.
    pub fn check(&self) -> (r: Step)
        requires
            self.wf(),
        ensures
            step_is(
                r,
                self.tree.nodes@,
                self.frontier@,
                self.level,
                self.max_depth,
                self.start@,
                self.goal@,
            ),
    {
        match find_goal(&self.tree, &self.frontier, self.goal.as_str()) {
            Some(found) => {
                let story = build_final_text(&self.tree, found.0, found.1.as_str(), self.goal.as_str());
                Step::Found(story)
            },
            None => {
                if self.level >= self.max_depth {
                    Step::DepthExceeded(
                        depth_text(self.max_depth, self.start.as_str(), self.goal.as_str()),
                    )
                } else {
                    Step::Next
                }
            },
        }
    }

    /// The lookups of the next level: one for each reference of the frontier, in
    /// order, to a topic not looked up before; those topics are now visited.
    pub fn lookups(&mut self) -> (r: Vec<Lookup>)
        requires
            old(self).wf(),
            old(self).level < old(self).max_depth,
        ensures
            final(self).wf(),
            final(self).tree == old(self).tree,
            final(self).frontier == old(self).frontier,
            final(self).level == old(self).level,
            final(self).max_depth == old(self).max_depth,
            final(self).start == old(self).start,
            final(self).goal == old(self).goal,
            lookups_view(r@) == fresh_edges(
                level_edges(old(self).tree.nodes@, old(self).frontier@),
                texts_view(old(self).visited@),
            ),
            texts_view(final(self).visited@) == texts_view(old(self).visited@) + edge_keys(
                lookups_view(r@),
            ),
            forall|i: int| 0 <= i < r@.len() ==> (#[trigger] r@[i]).parent < old(self).tree.nodes@.len(),
    {
        let ghost v0 = texts_view(self.visited@);
        let r = dispatch_level(&self.tree, &self.frontier, &mut self.visited);
        proof {
            let edges = level_edges(self.tree.nodes@, self.frontier@);
            lemma_seen_is_visited_then_fresh(edges, v0);
            lemma_seen_no_duplicates(edges, v0);
            lemma_level_edges_parent(self.tree.nodes@, self.frontier@, self.tree.nodes@.len() as int);
            lemma_fresh_edges_parent(edges, v0, self.tree.nodes@.len() as int);
            assert forall|i: int| 0 <= i < r@.len() implies (#[trigger] r@[i]).parent
                < self.tree.nodes@.len() by {
                assert(lookups_view(r@)[i].0 == r@[i].parent);
            }
            assert(texts_view(self.visited@)[0] == v0[0]);
        }
        r
    }

    /// Grows the tree by the answers to `lookups`, goes one level down, and says
    /// where the search then stands.
    pub fn advance(&mut self, lookups: &Vec<Lookup>, answers: Vec<Option<Vec<Paragraph>>>) -> (r:
        Step)
        requires
            old(self).wf(),
            old(self).level < old(self).max_depth,
            answers@.len() == lookups@.len(),
            forall|i: int| 0 <= i < lookups@.len() ==> (#[trigger] lookups@[i]).parent < old(
                self,
            ).tree.nodes@.len(),
        ensures
            final(self).wf(),
            final(self).tree.nodes@ == old(self).tree.nodes@ + grown(lookups@, answers@),
            final(self).frontier@ == Seq::new(
                grown(lookups@, answers@).len(),
                |k: int| (old(self).tree.nodes@.len() + k) as usize,
            ),
            final(self).level == old(self).level + 1,
            final(self).visited == old(self).visited,
            final(self).max_depth == old(self).max_depth,
            final(self).start == old(self).start,
            final(self).goal == old(self).goal,
            step_is(
                r,
                final(self).tree.nodes@,
                final(self).frontier@,
                final(self).level,
                final(self).max_depth,
                final(self).start@,
                final(self).goal@,
            ),
    {
        let ghost before = self.tree.nodes@;
        let ghost added = grown(lookups@, answers@);
        self.frontier = accept_level(&mut self.tree, lookups, answers);
        self.level = self.level + 1;
        proof {
            lemma_grown_linked(lookups@, answers@);
            assert forall|j: int| 0 < j < self.tree.nodes@.len() implies (
            #[trigger] self.tree.nodes@[j]).link is Some by {
                if j >= before.len() {
                    assert(self.tree.nodes@[j] == added[j - before.len()]);
                } else {
                    assert(self.tree.nodes@[j] == before[j]);
                }
            }
            assert(self.tree.nodes@[0] == before[0]);
        }
        self.check()
    }
}

/// The topics of `lookups`, in order.
pub fn lookup_topics(lookups: &Vec<Lookup>) -> (r: Vec<String>)
    ensures
        texts_view(r@) == edge_keys(lookups_view(lookups@)),
{
    let mut r: Vec<String> = Vec::new();
    let mut i: usize = 0;
    while i < lookups.len()
        invariant
            i <= lookups@.len(),
            texts_view(r@) == edge_keys(lookups_view(lookups@.take(i as int))),
        decreases lookups@.len() - i,
    {
        r.push(lookups[i].topic.clone());
        assert(lookups@.take(i as int + 1) =~= lookups@.take(i as int).push(lookups@[i as int]));
        assert(lookups_view(lookups@.take(i as int + 1)) =~= lookups_view(lookups@.take(i as int)).push(
            lookups_view(lookups@)[i as int],
        ));
        assert(edge_keys(lookups_view(lookups@.take(i as int + 1))) =~= edge_keys(
            lookups_view(lookups@.take(i as int)),
        ).push(lookups@[i as int].topic@));
        assert(texts_view(r@) =~= edge_keys(lookups_view(lookups@.take(i as int + 1))));
        i = i + 1;
    }
    assert(lookups@.take(lookups@.len() as int) =~= lookups@);
    r
}

/// `answers` made `n` long: answers beyond `n` are dropped, and a missing
/// answer counts as no article.
pub fn fit_answers(answers: Vec<Option<Vec<Paragraph>>>, n: usize) -> (r: Vec<Option<Vec<Paragraph>>>)
    ensures
        r@.len() == n,
        forall|i: int| 0 <= i < n ==> #[trigger] r@[i] == (if i < answers@.len() {
            answers@[i]
        } else {
            None
        }),
{
    let mut r = answers;
    let ghost all = r@;
    while r.len() > n
        invariant
            r@ == all.take(r@.len() as int),
            r@.len() <= all.len(),
            r@.len() == all.len() || r@.len() >= n,
        decreases r@.len(),
    {
        r.pop();
        assert(r@ =~= all.take(r@.len() as int));
    }
    while r.len() < n
        invariant
            r@.len() <= n,
            r@.len() >= all.len() || r@.len() == n,
            forall|i: int| 0 <= i < r@.len() ==> #[trigger] r@[i] == (if i < all.len() {
                all[i]
            } else {
                None
            }),
        decreases n - r@.len(),
    {
        r.push(None);
    }
    r
}

} // verus!
