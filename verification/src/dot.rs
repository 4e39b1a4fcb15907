//! The description of a forest as a directed graph in the DOT language.
//!
//! The description declares each node that carries a symbol, with the
//! symbol as its label, and an edge from each such node to each of its
//! children that carries a symbol. Nodes are walked depth first, children
//! in stored order; a node's declaration comes before its edges, and the
//! edge to a child comes before the child's own lines. Sentinels are
//! neither declared nor joined; what the walk does with the children
//! stored after a sentinel is the caller's choice, see [`SentinelPolicy`].

use vstd::prelude::*;
use vstd::string::StringExecFns;
use crate::tree::Tree;
use crate::node::{Node, views};
use crate::label::{child_label, label, root_label, make_child_label, make_label};
use crate::trie::Trie;
use crate::dot_lemmas::{lemma_text_add, lemma_text_one};

verus! {

/// What the walk over a node's children does when it meets a sentinel.
#[derive(Clone, Copy, PartialEq, Eq, Debug)]
pub enum SentinelPolicy {
    /// The walk over these children ends: children stored after the
    /// sentinel are not described.
    Stop,
    /// The sentinel is passed over and the walk goes on.
    Skip,
}

/// The direction in which the graph is laid out.
#[derive(Clone, Copy, PartialEq, Eq, Debug)]
pub enum RankDir {
    /// Left to right.
    LR,
    /// Top to bottom.
    UB,
}

/// One line of the body of a graph description.
pub enum Line {
    /// Declares the node `id` with the text `label` as its label.
    Declare { id: Seq<char>, label: Seq<char> },
    /// Declares the edge from the node `from` to the node `to`.
    Edge { from: Seq<char>, to: Seq<char> },
}

/// The text of a line, with the line feed that ends it.
pub open spec fn line_text(line: Line) -> Seq<char> {
    match line {
        Line::Declare { id, label } => id + " [label=\""@ + label + "\",shape=plain];\n"@,
        Line::Edge { from, to } => from + " -> "@ + to + ";\n"@,
    }
}

/// The text of a sequence of lines.
pub open spec fn text(lines: Seq<Line>) -> Seq<char>
    decreases lines.len(),
{
    if lines.len() == 0 {
        Seq::empty()
    } else {
        text(lines.drop_last()) + line_text(lines.last())
    }
}

/// The lines that describe `t` and all below it, where `t` stands below the
/// position labelled `parent`: the declaration of `t`, whose label is its
/// symbol, then the lines for its children. A sentinel has no lines.
pub open spec fn node_lines(t: Tree, parent: Seq<char>, policy: SentinelPolicy) -> Seq<Line>
    decreases t,
{
    match t.sym {
        None => Seq::empty(),
        Some(c) => {
            let id = child_label(parent, t.sym);
            seq![Line::Declare { id, label: seq![c] }] + children_lines(t.children, id, policy)
        },
    }
}

/// The lines for the children `kids` of the node `id`, in stored order: for
/// each child the edge to it, then the child's own lines. At a sentinel
/// the policy decides whether the walk ends or goes on with the next child.
pub open spec fn children_lines(kids: Seq<Tree>, id: Seq<char>, policy: SentinelPolicy) -> Seq<Line>
    decreases kids,
{
    if kids.len() == 0 {
        Seq::empty()
    } else {
        match kids[0].sym {
            None => match policy {
                SentinelPolicy::Stop => Seq::empty(),
                SentinelPolicy::Skip => children_lines(kids.drop_first(), id, policy),
            },
            Some(_) => seq![Line::Edge { from: id, to: child_label(id, kids[0].sym) }]
                + node_lines(kids[0], id, policy) + children_lines(kids.drop_first(), id, policy),
        }
    }
}

/// The lines for a forest: those of each root, in stored order.
pub open spec fn forest_lines(forest: Seq<Tree>, policy: SentinelPolicy) -> Seq<Line>
    decreases forest.len(),
{
    if forest.len() == 0 {
        Seq::empty()
    } else {
        node_lines(forest[0], root_label(), policy) + forest_lines(forest.drop_first(), policy)
    }
}

/// The name of a layout direction.
pub open spec fn rankdir_name(dir: RankDir) -> Seq<char> {
    match dir {
        RankDir::LR => "LR"@,
        RankDir::UB => "UB"@,
    }
}

/// The whole graph description of a forest: header, lines, footer.
pub open spec fn graph_text(forest: Seq<Tree>, dir: RankDir, policy: SentinelPolicy) -> Seq<char> {
    "digraph {\nrankdir="@ + rankdir_name(dir) + ";\n"@ + text(forest_lines(forest, policy)) + "}\n"@
}

/// Whether some line of `lines` declares the node `id`.
pub open spec fn declares(lines: Seq<Line>, id: Seq<char>) -> bool {
    exists|i: int| 0 <= i < lines.len() && (#[trigger] lines[i]) is Declare && lines[i]->id == id
}

/// Whether no node is declared by two lines of `lines`.
pub open spec fn declared_once(lines: Seq<Line>) -> bool {
    forall|i: int, j: int|
        0 <= i < j < lines.len() && (#[trigger] lines[i]) is Declare && (#[trigger] lines[j]) is Declare
            ==> lines[i]->id != lines[j]->id
}

/// Whether every edge of `lines` joins two nodes that `lines` declare.
pub open spec fn edges_joined(lines: Seq<Line>) -> bool {
    forall|e: int|
        0 <= e < lines.len() && (#[trigger] lines[e]) is Edge ==> declares(lines, lines[e]->from) && declares(
            lines,
            lines[e]->to,
        )
}

impl Node {
    /// Appends to `out` the lines that describe this node and all below
    /// it, where the node stands below the position labelled `parent`.
    fn write_dot(&self, parent: &str, policy: SentinelPolicy, out: &mut String)
        ensures
            final(out)@ == old(out)@ + text(node_lines(self@, parent@, policy)),
        decreases self,
    {
        match self.sym {
            None => {
                assert(out@ =~= old(out)@ + text(node_lines(self@, parent@, policy)));
            },
            Some(c) => {
                let id = make_child_label(parent, self.sym);
                out.append(id.as_str());
                out.append(" [label=\"");
                out.push(c);
                out.append("\",shape=plain];\n");
                let ghost kids = self@.children;
                let ghost head = Line::Declare { id: id@, label: seq![c] };
                let ghost start = out@;
                proof {
                    assert(start =~= old(out)@ + line_text(head));
                    assert(kids.skip(0) =~= kids);
                }
                let mut i: usize = 0;
                while i < self.children.len()
                    invariant
                        i <= self.children.len(),
                        kids == views(self.children@),
                        out@ + text(children_lines(kids.skip(i as int), id@, policy)) == start + text(
                            children_lines(kids, id@, policy),
                        ),
                    decreases self.children.len() - i,
                {
                    let child = &self.children[i];
                    let ghost rest = kids.skip(i as int);
                    proof {
                        assert(rest[0] == child@);
                        assert(rest.drop_first() =~= kids.skip(i + 1));
                    }
                    match child.sym {
                        None => {
                            match policy {
                                SentinelPolicy::Stop => {
                                    proof {
                                        assert(kids.skip(self.children.len() as int) =~= Seq::<Tree>::empty());
                                    }
                                    i = self.children.len();
                                },
                                SentinelPolicy::Skip => {
                                    i += 1;
                                },
                            }
                        },
                        Some(_) => {
                            let ghost before = out@;
                            let child_id = make_child_label(id.as_str(), child.sym);
                            out.append(id.as_str());
                            out.append(" -> ");
                            out.append(child_id.as_str());
                            out.append(";\n");
                            child.write_dot(id.as_str(), policy, out);
                            proof {
                                let link = Line::Edge { from: id@, to: child_id@ };
                                let below = node_lines(child@, id@, policy);
                                let after = children_lines(kids.skip(i + 1), id@, policy);
                                lemma_text_one(link);
                                lemma_text_add(seq![link], below);
                                lemma_text_add(seq![link] + below, after);
                                assert(out@ =~= before + (line_text(link) + text(below)));
                                assert(out@ + text(after) =~= before + text(children_lines(rest, id@, policy)));
                            }
                            i += 1;
                        },
                    }
                }
                proof {
                    let below = children_lines(kids, id@, policy);
                    assert(kids.skip(kids.len() as int) =~= Seq::<Tree>::empty());
                    assert(out@ =~= start + text(below));
                    lemma_text_one(head);
                    lemma_text_add(seq![head], below);
                    assert(self@.sym == Some(c));
                    assert(self@.children == kids);
                    assert(id@ == child_label(parent@, self@.sym));
                    assert(node_lines(self@, parent@, policy) =~= seq![head] + below);
                    assert(out@ =~= old(out)@ + (line_text(head) + text(below)));
                }
            },
        }
    }

    /// The lines that describe this node and all below it, where the node
    /// is reached along `prefix`, the symbols of its ancestors from the
    /// root down.
    pub fn to_dot(&self, prefix: &[char], policy: SentinelPolicy) -> (r: String)
        ensures
            r@ == text(node_lines(self@, label(prefix@), policy)),
    {
        let parent = make_label(prefix);
        let mut out = String::new();
        self.write_dot(parent.as_str(), policy, &mut out);
        assert(out@ =~= text(node_lines(self@, label(prefix@), policy)));
        out
    }
}

impl Trie {
    /// The graph description of the trie.
    pub fn to_dot(&self, dir: RankDir, policy: SentinelPolicy) -> (r: String)
        ensures
            r@ == graph_text(self@, dir, policy),
    {
        let roots = self.roots();
        let mut out = String::from_str("digraph {\nrankdir=");
        match dir {
            RankDir::LR => out.append("LR"),
            RankDir::UB => out.append("UB"),
        }
        out.append(";\n");
        let ghost start = out@;
        let ghost forest = self@;
        proof {
            reveal_strlit("node");
            assert("node"@ =~= root_label());
            assert(forest.skip(0) =~= forest);
        }
        let mut i: usize = 0;
        while i < roots.len()
            invariant
                i <= roots.len(),
                views(roots@) == forest,
                "node"@ == root_label(),
                out@ + text(forest_lines(forest.skip(i as int), policy)) == start + text(
                    forest_lines(forest, policy),
                ),
            decreases roots.len() - i,
        {
            let ghost before = out@;
            let ghost rest = forest.skip(i as int);
            proof {
                assert(rest[0] == roots[i as int]@);
                assert(rest.drop_first() =~= forest.skip(i + 1));
                lemma_text_add(
                    node_lines(rest[0], root_label(), policy),
                    forest_lines(forest.skip(i + 1), policy),
                );
            }
            roots[i].write_dot("node", policy, &mut out);
            proof {
                assert(out@ + text(forest_lines(forest.skip(i + 1), policy)) =~= before + text(
                    forest_lines(rest, policy),
                ));
            }
            i += 1;
        }
        proof {
            assert(forest.skip(forest.len() as int) =~= Seq::<Tree>::empty());
            assert(out@ =~= start + text(forest_lines(forest, policy)));
        }
        out.append("}\n");
        out
    }
}

} // verus!
