//! The tree that a search grows: an arena of nodes, each pointing at its parent
//! by index, from which the chain of references to a node is read back.

use vstd::prelude::*;
use crate::article::{Article, Paragraph};

verus! {

/// One looked-up topic. The root has no link; any other node links to its
/// parent (an index below its own) with the paragraph text that referred to it.
pub struct TreeNode {
    pub topic: String,
    pub paragraphs: Vec<Paragraph>,
    pub link: Option<(usize, String)>,
}

impl Article for TreeNode {
    fn get_paragraphs(&self) -> &Vec<Paragraph> {
        &self.paragraphs
    }

    fn get_topic(&self) -> &str {
        self.topic.as_str()
    }
}

/// The nodes of a search, in the order they were created.
pub struct PathTree {
    pub nodes: Vec<TreeNode>,
}

/// Every link of `nodes` points at an earlier node.
pub open spec fn links_backward(nodes: Seq<TreeNode>) -> bool {
    forall|i: int| 0 <= i < nodes.len() ==> match (#[trigger] nodes[i]).link {
        Some(l) => l.0 < i,
        None => true,
    }
}

/// The views of a sequence of strings.
pub open spec fn texts_view(v: Seq<String>) -> Seq<Seq<char>> {
    v.map_values(|s: String| s@)
}

/// The line that says a reference led from `from` to `to`.
pub open spec fn arrow_line(from: Seq<char>, to: Seq<char>) -> Seq<char> {
    "-> ("@ + from + " to "@ + to + ")"@
}

/// The lines read walking up from node `i`, whose reference led on to `last`:
/// for each node an arrow to the topic below it, then, but at the root, the text
/// that referred to it.
pub open spec fn chain_lines(nodes: Seq<TreeNode>, i: int, last: Seq<char>) -> Seq<Seq<char>>
    decreases i,
{
    if 0 <= i < nodes.len() {
        match nodes[i].link {
            Some(l) => if l.0 < i {
                seq![arrow_line(nodes[i].topic@, last), l.1@] + chain_lines(
                    nodes,
                    l.0 as int,
                    nodes[i].topic@,
                )
            } else {
                Seq::empty()
            },
            None => seq![arrow_line(nodes[i].topic@, last)],
        }
    } else {
        Seq::empty()
    }
}

/// The lines in reverse order, each ended by CR LF.
pub open spec fn rev_join(lines: Seq<Seq<char>>) -> Seq<char>
    decreases lines.len(),
{
    if lines.len() == 0 {
        Seq::empty()
    } else {
        rev_join(lines.drop_first()) + lines[0] + "\r\n"@
    }
}

/// The story that ends at node `i`, where the paragraph `goal_text` of that node
/// refers to `goal`: from the root down, arrows and texts, then `goal_text`.
pub open spec fn story_text(
    nodes: Seq<TreeNode>,
    i: int,
    goal_text: Seq<char>,
    goal: Seq<char>,
) -> Seq<char> {
    rev_join(seq![goal_text] + chain_lines(nodes, i, goal))
}

impl PathTree {
    pub open spec fn wf(&self) -> bool {
        links_backward(self.nodes@)
    }

    pub fn new() -> (r: PathTree)
        ensures
            r.wf(),
            r.nodes@.len() == 0,
    {
        PathTree { nodes: Vec::new() }
    }

    /// Adds `node` and returns its index.
    pub fn add(&mut self, node: TreeNode) -> (r: usize)
        requires
            old(self).wf(),
            node.link matches Some(l) ==> l.0 < old(self).nodes@.len(),
        ensures
            final(self).wf(),
            final(self).nodes@ == old(self).nodes@.push(node),
            r == old(self).nodes@.len(),
    {
        let r = self.nodes.len();
        self.nodes.push(node);
        r
    }
}

/// `-> (from to to)`.
fn arrow_text(from: &str, to: &str) -> (r: String)
    ensures
        r@ == arrow_line(from@, to@),
{
    let mut r = String::from_str("-> (");
    r.append(from);
    r.append(" to ");
    r.append(to);
    r.append(")");
    r
}

/// The story that ends at node `node`, whose paragraph `final_text` refers to
/// `final_topic`.
pub fn build_final_text(tree: &PathTree, node: usize, final_text: &str, final_topic: &str) -> (r:
    String)
    requires
        tree.wf(),
        node < tree.nodes@.len(),
    ensures
        r@ == story_text(tree.nodes@, node as int, final_text@, final_topic@),
{
    let ghost nodes = tree.nodes@;
    let ghost all = seq![final_text@] + chain_lines(nodes, node as int, final_topic@);
    let mut lines: Vec<String> = Vec::new();
    lines.push(String::from_str(final_text));
    let mut cur: usize = node;
    let mut last = String::from_str(final_topic);
    assert(texts_view(lines@) =~= seq![final_text@]);
    while tree.nodes[cur].link.is_some()
        invariant
            tree.wf(),
            nodes == tree.nodes@,
            cur < nodes.len(),
            texts_view(lines@) + chain_lines(nodes, cur as int, last@) == all,
        decreases cur,
    {
        match &tree.nodes[cur].link {
            Some(l) => {
                let ghost before = texts_view(lines@);
                let ghost old_cur = cur as int;
                let ghost old_last = last@;
                assert(l.0 < cur);
                lines.push(arrow_text(tree.nodes[cur].topic.as_str(), last.as_str()));
                lines.push(l.1.clone());
                last = tree.nodes[cur].topic.clone();
                cur = l.0;
                assert(texts_view(lines@) =~= before + seq![
                    arrow_line(nodes[old_cur].topic@, old_last),
                    nodes[old_cur].link->Some_0.1@,
                ]);
                assert(chain_lines(nodes, old_cur, old_last) == seq![
                    arrow_line(nodes[old_cur].topic@, old_last),
                    nodes[old_cur].link->Some_0.1@,
                ] + chain_lines(nodes, cur as int, last@));
                assert(texts_view(lines@) + chain_lines(nodes, cur as int, last@) =~= all);
            },
            None => {},
        }
    }
    let ghost before = texts_view(lines@);
    lines.push(arrow_text(tree.nodes[cur].topic.as_str(), last.as_str()));
    assert(texts_view(lines@) =~= before + chain_lines(nodes, cur as int, last@));
    assert(texts_view(lines@) =~= all);
    let mut out = String::new();
    let mut j: usize = lines.len();
    assert(texts_view(lines@).subrange(j as int, lines@.len() as int) =~= Seq::empty());
    while j > 0
        invariant
            j <= lines@.len(),
            out@ == rev_join(texts_view(lines@).subrange(j as int, lines@.len() as int)),
        decreases j,
    {
        let ghost tail = texts_view(lines@).subrange(j as int, lines@.len() as int);
        j = j - 1;
        out.append(lines[j].as_str());
        out.append("\r\n");
        let ghost longer = texts_view(lines@).subrange(j as int, lines@.len() as int);
        assert(longer.drop_first() =~= tail);
    }
    assert(texts_view(lines@).subrange(0, lines@.len() as int) =~= texts_view(lines@));
    out
}

} // verus!
