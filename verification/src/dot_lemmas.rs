//! Proofs about the lines of a graph description.

use vstd::prelude::*;
use crate::tree::{Tree, distinct, symbolic};
use crate::label::{
    child_label, lemma_child_label_len, lemma_reach_len, lemma_reach_through, reach, root_label,
};
use crate::laws::law_child_label_injective;
use crate::dot::{
    Line, SentinelPolicy, children_lines, declared_once, declares, edges_joined, forest_lines,
    line_text, node_lines, text,
};

verus! {

/// The text of two runs of lines, one after the other.
pub proof fn lemma_text_add(a: Seq<Line>, b: Seq<Line>)
    ensures
        text(a + b) == text(a) + text(b),
    decreases b.len(),
{
    if b.len() == 0 {
        assert(a + b =~= a);
        assert(text(a) + text(b) =~= text(a));
    } else {
        assert((a + b).drop_last() =~= a + b.drop_last());
        lemma_text_add(a, b.drop_last());
        assert(text(a + b) =~= text(a) + text(b));
    }
}

/// The text of a single line.
pub proof fn lemma_text_one(line: Line)
    ensures
        text(seq![line]) == line_text(line),
{
    assert(seq![line].drop_last() =~= Seq::<Line>::empty());
    assert(text(seq![line].drop_last()) =~= Seq::<char>::empty());
    assert(text(seq![line]) =~= line_text(line));
}

/// Whether the label `id` lies at or below the label `from`.
pub open spec fn descends(id: Seq<char>, from: Seq<char>) -> bool {
    exists|path: Seq<char>| id == #[trigger] reach(from, path)
}

/// Whether the label `id` lies at or below a child of the node `parent`
/// that is one of `kids` and carries a symbol.
pub open spec fn descends_from_one(id: Seq<char>, parent: Seq<char>, kids: Seq<Tree>) -> bool {
    exists|k: int|
        0 <= k < kids.len() && (#[trigger] kids[k]).sym is Some && descends(id, child_label(parent, kids[k].sym))
}

/// Labels below two children of one node are the same only below the same
/// child: the two children carry the same symbol.
pub proof fn lemma_branches_apart(
    parent: Seq<char>,
    sym_a: Option<char>,
    path_a: Seq<char>,
    sym_b: Option<char>,
    path_b: Seq<char>,
)
    requires
        reach(child_label(parent, sym_a), path_a) == reach(child_label(parent, sym_b), path_b),
    ensures
        sym_a == sym_b,
    decreases path_a.len() + path_b.len(),
{
    let a = child_label(parent, sym_a);
    let b = child_label(parent, sym_b);
    if path_a.len() > 0 && path_b.len() > 0 {
        law_child_label_injective(
            reach(a, path_a.drop_last()),
            Some(path_a.last()),
            reach(b, path_b.drop_last()),
            Some(path_b.last()),
        );
        lemma_branches_apart(parent, sym_a, path_a.drop_last(), sym_b, path_b.drop_last());
    } else if path_a.len() > 0 {
        law_child_label_injective(reach(a, path_a.drop_last()), Some(path_a.last()), parent, sym_b);
        lemma_reach_len(a, path_a.drop_last());
        lemma_child_label_len(parent, sym_a);
    } else if path_b.len() > 0 {
        law_child_label_injective(parent, sym_a, reach(b, path_b.drop_last()), Some(path_b.last()));
        lemma_reach_len(b, path_b.drop_last());
        lemma_child_label_len(parent, sym_b);
    } else {
        law_child_label_injective(parent, sym_a, parent, sym_b);
    }
}

/// What two runs of lines declare, one after the other.
pub proof fn lemma_declares_add(a: Seq<Line>, b: Seq<Line>, id: Seq<char>)
    ensures
        declares(a + b, id) <==> declares(a, id) || declares(b, id),
{
    let all = a + b;
    if declares(all, id) {
        let i = choose|i: int| 0 <= i < all.len() && (#[trigger] all[i]) is Declare && all[i]->id == id;
        if i < a.len() {
            assert(a[i] == all[i]);
        } else {
            assert(b[i - a.len()] == all[i]);
        }
    }
    if declares(a, id) {
        let i = choose|i: int| 0 <= i < a.len() && (#[trigger] a[i]) is Declare && a[i]->id == id;
        assert(all[i] == a[i]);
    }
    if declares(b, id) {
        let i = choose|i: int| 0 <= i < b.len() && (#[trigger] b[i]) is Declare && b[i]->id == id;
        assert(all[a.len() + i] == b[i]);
    }
}

/// Two runs of lines that each declare no node twice, and no node in
/// common, together declare no node twice.
pub proof fn lemma_declared_once_add(a: Seq<Line>, b: Seq<Line>)
    requires
        declared_once(a),
        declared_once(b),
        forall|id: Seq<char>| !(declares(a, id) && declares(b, id)),
    ensures
        declared_once(a + b),
{
    let all = a + b;
    assert forall|i: int, j: int|
        0 <= i < j < all.len() && (#[trigger] all[i]) is Declare && (#[trigger] all[j]) is Declare implies all[i]->id
        != all[j]->id by {
        if j < a.len() {
            assert(a[i] == all[i] && a[j] == all[j]);
        } else if i >= a.len() {
            assert(b[i - a.len()] == all[i] && b[j - a.len()] == all[j]);
        } else {
            assert(a[i] == all[i] && b[j - a.len()] == all[j]);
            assert(declares(a, all[i]->id));
            if all[i]->id == all[j]->id {
                assert(declares(b, all[i]->id));
            }
        }
    }
}

/// The lines of a well-formed tree declare no node twice, and every node
/// they declare lies at or below the tree's own label.
pub proof fn lemma_node_declared_once(t: Tree, parent: Seq<char>, policy: SentinelPolicy)
    requires
        t.wf(),
    ensures
        declared_once(node_lines(t, parent, policy)),
        forall|id: Seq<char>| #[trigger]
            declares(node_lines(t, parent, policy), id) ==> descends(id, child_label(parent, t.sym)),
    decreases t,
{
    if let Some(c) = t.sym {
        let own = child_label(parent, t.sym);
        let head = seq![Line::Declare { id: own, label: seq![c] }];
        let below = children_lines(t.children, own, policy);
        lemma_children_declared_once(t.children, own, policy);
        assert(reach(own, Seq::empty()) == own);
        assert forall|id: Seq<char>| declares(below, id) implies id != own && descends(id, own) by {
            let k = choose|k: int|
                0 <= k < t.children.len() && (#[trigger] t.children[k]).sym is Some && descends(
                    id,
                    child_label(own, t.children[k].sym),
                );
            let kid = child_label(own, t.children[k].sym);
            let path = choose|path: Seq<char>| id == #[trigger] reach(kid, path);
            lemma_reach_len(kid, path);
            lemma_child_label_len(own, t.children[k].sym);
            lemma_reach_through(own, t.children[k].sym->0, path);
        }
        assert forall|id: Seq<char>| !(declares(head, id) && declares(below, id)) by {
            if declares(head, id) {
                let i = choose|i: int| 0 <= i < head.len() && (#[trigger] head[i]) is Declare && head[i]->id == id;
                assert(id == own);
            }
        }
        assert(declared_once(head));
        lemma_declared_once_add(head, below);
        assert forall|id: Seq<char>| #[trigger]
            declares(node_lines(t, parent, policy), id) implies descends(id, own) by {
            lemma_declares_add(head, below, id);
            if declares(head, id) {
                let i = choose|i: int| 0 <= i < head.len() && (#[trigger] head[i]) is Declare && head[i]->id == id;
                assert(id == reach(own, Seq::empty()));
            }
        }
    }
}

/// The lines for the children of a node, where no two of the children
/// carry the same symbol and each is well-formed, declare no node twice,
/// and every node they declare lies at or below one of the children.
pub proof fn lemma_children_declared_once(kids: Seq<Tree>, id: Seq<char>, policy: SentinelPolicy)
    requires
        distinct(kids),
        forall|k: int| 0 <= k < kids.len() ==> (#[trigger] kids[k]).wf(),
    ensures
        declared_once(children_lines(kids, id, policy)),
        forall|d: Seq<char>| #[trigger]
            declares(children_lines(kids, id, policy), d) ==> descends_from_one(d, id, kids),
    decreases kids,
{
    if kids.len() > 0 {
        let rest = kids.drop_first();
        let after = children_lines(rest, id, policy);
        assert forall|k: int| 0 <= k < rest.len() implies (#[trigger] rest[k]).wf() by {
            assert(rest[k] == kids[k + 1]);
        }
        assert(distinct(rest)) by {
            assert forall|i: int, j: int| 0 <= i < j < rest.len() implies (#[trigger] rest[i]).sym != (
            #[trigger] rest[j]).sym by {
                assert(rest[i] == kids[i + 1] && rest[j] == kids[j + 1]);
            }
        }
        lemma_children_declared_once(rest, id, policy);
        assert forall|d: Seq<char>| declares(after, d) implies descends_from_one(d, id, kids) by {
            let k = choose|k: int|
                0 <= k < rest.len() && (#[trigger] rest[k]).sym is Some && descends(d, child_label(id, rest[k].sym));
            assert(kids[k + 1] == rest[k]);
        }
        if kids[0].sym is Some {
            let link = seq![Line::Edge { from: id, to: child_label(id, kids[0].sym) }];
            let own = node_lines(kids[0], id, policy);
            lemma_node_declared_once(kids[0], id, policy);
            assert forall|d: Seq<char>| !(declares(own, d) && declares(after, d)) by {
                if declares(own, d) && declares(after, d) {
                    let k = choose|k: int|
                        0 <= k < rest.len() && (#[trigger] rest[k]).sym is Some && descends(
                            d,
                            child_label(id, rest[k].sym),
                        );
                    assert(kids[k + 1] == rest[k]);
                    let path_a = choose|path: Seq<char>| d == #[trigger] reach(child_label(id, kids[0].sym), path);
                    let path_b = choose|path: Seq<char>| d == #[trigger] reach(child_label(id, rest[k].sym), path);
                    lemma_branches_apart(id, kids[0].sym, path_a, rest[k].sym, path_b);
                    assert(kids[0].sym != kids[k + 1].sym);
                }
            }
            lemma_declared_once_add(own, after);
            assert forall|d: Seq<char>| !(declares(link, d) && declares(own + after, d)) by {
                if declares(link, d) {
                    let i = choose|i: int| 0 <= i < link.len() && (#[trigger] link[i]) is Declare && link[i]->id == d;
                }
            }
            assert(declared_once(link));
            lemma_declared_once_add(link, own + after);
            assert(link + (own + after) =~= link + own + after);
            assert forall|d: Seq<char>| #[trigger]
                declares(children_lines(kids, id, policy), d) implies descends_from_one(d, id, kids) by {
                lemma_declares_add(link, own + after, d);
                lemma_declares_add(own, after, d);
                if declares(link, d) {
                    let i = choose|i: int| 0 <= i < link.len() && (#[trigger] link[i]) is Declare && link[i]->id == d;
                }
                if declares(own, d) {
                    assert(kids[0].sym is Some && descends(d, child_label(id, kids[0].sym)));
                }
            }
        }
    }
}

/// The lines of a forest, where no two of the roots carry the same symbol
/// and each is well-formed, declare no node twice, and every node they
/// declare lies at or below one of the roots.
pub proof fn lemma_forest_declared_once(forest: Seq<Tree>, policy: SentinelPolicy)
    requires
        distinct(forest),
        forall|k: int| 0 <= k < forest.len() ==> (#[trigger] forest[k]).wf(),
    ensures
        declared_once(forest_lines(forest, policy)),
        forall|d: Seq<char>| #[trigger]
            declares(forest_lines(forest, policy), d) ==> descends_from_one(d, root_label(), forest),
    decreases forest.len(),
{
    if forest.len() > 0 {
        let top = root_label();
        let rest = forest.drop_first();
        let after = forest_lines(rest, policy);
        let own = node_lines(forest[0], top, policy);
        assert forall|k: int| 0 <= k < rest.len() implies (#[trigger] rest[k]).wf() by {
            assert(rest[k] == forest[k + 1]);
        }
        assert(distinct(rest)) by {
            assert forall|i: int, j: int| 0 <= i < j < rest.len() implies (#[trigger] rest[i]).sym != (
            #[trigger] rest[j]).sym by {
                assert(rest[i] == forest[i + 1] && rest[j] == forest[j + 1]);
            }
        }
        lemma_forest_declared_once(rest, policy);
        lemma_node_declared_once(forest[0], top, policy);
        assert forall|d: Seq<char>|
            declares(after, d) implies
            descends_from_one(d, top, forest) by {
            let k = choose|k: int|
                0 <= k < rest.len() && (#[trigger] rest[k]).sym is Some && descends(d, child_label(top, rest[k].sym));
            assert(forest[k + 1] == rest[k]);
        }
        assert forall|d: Seq<char>| !(declares(own, d) && declares(after, d)) by {
            if declares(own, d) && declares(after, d) {
                let k = choose|k: int|
                    0 <= k < rest.len() && (#[trigger] rest[k]).sym is Some && descends(
                        d,
                        child_label(top, rest[k].sym),
                    );
                assert(forest[k + 1] == rest[k]);
                let path_a = choose|path: Seq<char>| d == #[trigger] reach(child_label(top, forest[0].sym), path);
                let path_b = choose|path: Seq<char>| d == #[trigger] reach(child_label(top, rest[k].sym), path);
                lemma_branches_apart(top, forest[0].sym, path_a, rest[k].sym, path_b);
                assert(forest[0].sym != forest[k + 1].sym);
            }
        }
        lemma_declared_once_add(own, after);
        assert forall|d: Seq<char>| #[trigger]
            declares(forest_lines(forest, policy), d) implies descends_from_one(d, top, forest) by {
            lemma_declares_add(own, after, d);
            if declares(own, d) {
                if forest[0].sym is Some {
                    assert(descends(d, child_label(top, forest[0].sym)));
                } else {
                    assert(own =~= Seq::<Line>::empty());
                }
            }
        }
    }
}

/// The lines of a tidy tree are the same under both policies.
pub proof fn lemma_node_policies_agree(t: Tree, parent: Seq<char>)
    requires
        t.tidy(),
    ensures
        node_lines(t, parent, SentinelPolicy::Stop) == node_lines(t, parent, SentinelPolicy::Skip),
    decreases t,
{
    if t.sym is Some {
        lemma_children_policies_agree(t.children, child_label(parent, t.sym));
    }
}

/// The lines for tidy children, where a sentinel among them is the only
/// child, are the same under both policies.
pub proof fn lemma_children_policies_agree(kids: Seq<Tree>, id: Seq<char>)
    requires
        kids.len() == 1 || symbolic(kids),
        forall|k: int| 0 <= k < kids.len() ==> (#[trigger] kids[k]).tidy(),
    ensures
        children_lines(kids, id, SentinelPolicy::Stop) == children_lines(kids, id, SentinelPolicy::Skip),
    decreases kids,
{
    if kids.len() > 0 {
        let rest = kids.drop_first();
        assert forall|k: int| 0 <= k < rest.len() implies (#[trigger] rest[k]).tidy() by {
            assert(rest[k] == kids[k + 1]);
        }
        assert(symbolic(rest)) by {
            assert forall|k: int| 0 <= k < rest.len() implies (#[trigger] rest[k]).sym is Some by {
                assert(rest[k] == kids[k + 1]);
            }
        }
        lemma_children_policies_agree(rest, id);
        if kids[0].sym is Some {
            lemma_node_policies_agree(kids[0], id);
        } else {
            assert(rest.len() == 0);
        }
    }
}

/// The lines of a forest of tidy trees are the same under both policies.
pub proof fn lemma_forest_policies_agree(forest: Seq<Tree>)
    requires
        forall|k: int| 0 <= k < forest.len() ==> (#[trigger] forest[k]).tidy(),
    ensures
        forest_lines(forest, SentinelPolicy::Stop) == forest_lines(forest, SentinelPolicy::Skip),
    decreases forest.len(),
{
    if forest.len() > 0 {
        let rest = forest.drop_first();
        assert forall|k: int| 0 <= k < rest.len() implies (#[trigger] rest[k]).tidy() by {
            assert(rest[k] == forest[k + 1]);
        }
        lemma_forest_policies_agree(rest);
        lemma_node_policies_agree(forest[0], root_label());
    }
}

/// Whether every edge of `lines` leads to a node that `lines` declare, and
/// from such a node or from the node `id`.
pub open spec fn edges_joined_below(lines: Seq<Line>, id: Seq<char>) -> bool {
    forall|e: int|
        0 <= e < lines.len() && (#[trigger] lines[e]) is Edge ==> (lines[e]->from == id || declares(
            lines,
            lines[e]->from,
        )) && declares(lines, lines[e]->to)
}

/// Two runs of lines whose edges are joined below `id` are so together.
pub proof fn lemma_edges_joined_add(a: Seq<Line>, b: Seq<Line>, id: Seq<char>)
    requires
        edges_joined_below(a, id),
        edges_joined_below(b, id),
    ensures
        edges_joined_below(a + b, id),
{
    let all = a + b;
    assert forall|e: int| 0 <= e < all.len() && (#[trigger] all[e]) is Edge implies (all[e]->from == id
        || declares(all, all[e]->from)) && declares(all, all[e]->to) by {
        lemma_declares_add(a, b, all[e]->from);
        lemma_declares_add(a, b, all[e]->to);
        if e < a.len() {
            assert(a[e] == all[e]);
        } else {
            assert(b[e - a.len()] == all[e]);
        }
    }
}

/// Every edge among the lines of a tree joins two nodes that the lines
/// declare.
pub proof fn lemma_node_edges_joined(t: Tree, parent: Seq<char>, policy: SentinelPolicy)
    ensures
        edges_joined(node_lines(t, parent, policy)),
        t.sym is Some ==> declares(node_lines(t, parent, policy), child_label(parent, t.sym)),
    decreases t,
{
    if let Some(c) = t.sym {
        let own = child_label(parent, t.sym);
        let head = seq![Line::Declare { id: own, label: seq![c] }];
        let below = children_lines(t.children, own, policy);
        let all = node_lines(t, parent, policy);
        lemma_children_edges_joined(t.children, own, policy);
        assert(head[0] is Declare && head[0]->id == own);
        assert(declares(head, own));
        lemma_declares_add(head, below, own);
        assert forall|e: int| 0 <= e < all.len() && (#[trigger] all[e]) is Edge implies declares(all, all[e]->from)
            && declares(all, all[e]->to) by {
            lemma_declares_add(head, below, all[e]->from);
            lemma_declares_add(head, below, all[e]->to);
            if e < head.len() {
                assert(all[e] == head[e]);
            } else {
                assert(below[e - head.len()] == all[e]);
            }
        }
    }
}

/// Every edge among the lines for the children of the node `id` leads to
/// a node that the lines declare, and from such a node or from `id`.
pub proof fn lemma_children_edges_joined(kids: Seq<Tree>, id: Seq<char>, policy: SentinelPolicy)
    ensures
        edges_joined_below(children_lines(kids, id, policy), id),
    decreases kids,
{
    if kids.len() > 0 {
        let rest = kids.drop_first();
        let after = children_lines(rest, id, policy);
        lemma_children_edges_joined(rest, id, policy);
        if kids[0].sym is Some {
            let to = child_label(id, kids[0].sym);
            let link = seq![Line::Edge { from: id, to }];
            let own = node_lines(kids[0], id, policy);
            lemma_node_edges_joined(kids[0], id, policy);
            let first = link + own;
            assert forall|e: int| 0 <= e < first.len() && (#[trigger] first[e]) is Edge implies (first[e]->from
                == id || declares(first, first[e]->from)) && declares(first, first[e]->to) by {
                lemma_declares_add(link, own, first[e]->from);
                lemma_declares_add(link, own, first[e]->to);
                if e < link.len() {
                    assert(first[e] == link[e]);
                } else {
                    assert(own[e - link.len()] == first[e]);
                }
            }
            lemma_edges_joined_add(first, after, id);
        }
    }
}

/// Every edge among the lines of a forest joins two nodes that the lines
/// declare.
pub proof fn lemma_forest_edges_joined(forest: Seq<Tree>, policy: SentinelPolicy)
    ensures
        edges_joined(forest_lines(forest, policy)),
    decreases forest.len(),
{
    if forest.len() > 0 {
        let own = node_lines(forest[0], root_label(), policy);
        let after = forest_lines(forest.drop_first(), policy);
        let all = own + after;
        lemma_node_edges_joined(forest[0], root_label(), policy);
        lemma_forest_edges_joined(forest.drop_first(), policy);
        assert forall|e: int| 0 <= e < all.len() && (#[trigger] all[e]) is Edge implies declares(all, all[e]->from)
            && declares(all, all[e]->to) by {
            lemma_declares_add(own, after, all[e]->from);
            lemma_declares_add(own, after, all[e]->to);
            if e < own.len() {
                assert(own[e] == all[e]);
            } else {
                assert(after[e - own.len()] == all[e]);
            }
        }
    }
}

} // verus!
