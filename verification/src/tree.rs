//! The mathematical value of a node, and what it means to merge.

use vstd::prelude::*;
use crate::tree_lemmas::lemma_select_span;

verus! {

/// The mathematical value of a node: its symbol, and the values of its
/// children in stored order.
pub struct Tree {
    /// The symbol of the node; `None` for a sentinel.
    pub sym: Option<char>,
    /// The values of the children, in stored order.
    pub children: Seq<Tree>,
}

impl Tree {
    /// The sentinel: no symbol, no children.
    pub open spec fn sentinel() -> Tree {
        Tree { sym: None, children: Seq::empty() }
    }

    /// The chain that spells `s`: one node per character, closed by the sentinel.
    pub open spec fn chain(s: Seq<char>) -> Tree
        decreases s.len(),
    {
        if s.len() == 0 {
            Tree::sentinel()
        } else {
            Tree { sym: Some(s[0]), children: seq![Tree::chain(s.drop_first())] }
        }
    }

    /// The merge of two trees that stand for one symbol at one position:
    /// the merge of the group of the two, `a` first.
    pub open spec fn merge(a: Tree, b: Tree) -> Tree {
        merge_all(seq![a, b])
    }

    /// Whether the tree keeps the two rules of a trie node, at every level:
    /// no two children of a node carry the same symbol, and a node without
    /// a symbol has no children.
    pub open spec fn wf(self) -> bool
        decreases self,
    {
        &&& self.sym is None ==> self.children.len() == 0
        &&& distinct(self.children)
        &&& forall|i: int| 0 <= i < self.children.len() ==> (#[trigger] self.children[i]).wf()
    }

    /// Whether a sentinel, wherever the tree holds one, is the only child
    /// of its parent.
    pub open spec fn tidy(self) -> bool
        decreases self,
    {
        &&& self.children.len() == 1 || symbolic(self.children)
        &&& forall|i: int| 0 <= i < self.children.len() ==> (#[trigger] self.children[i]).tidy()
    }

    /// Whether `path` spells the symbols met on a way down from this node,
    /// the node's own symbol first, to a node that carries a symbol.
    pub open spec fn has_path(self, path: Seq<char>) -> bool
        decreases path.len(),
    {
        &&& path.len() > 0
        &&& self.sym == Some(path[0])
        &&& (path.len() == 1 || exists|i: int|
            0 <= i < self.children.len() && (#[trigger] self.children[i]).has_path(path.drop_first()))
    }

    /// The symbol paths of the tree.
    pub open spec fn paths(self) -> Set<Seq<char>> {
        Set::new(|path: Seq<char>| self.has_path(path))
    }

    /// Number of levels below this node.
    pub open spec fn height(self) -> nat
        decreases self,
    {
        span(self.children)
    }
}

/// Number of levels in a forest: zero when it is empty, else one more than
/// the height of its tallest tree.
pub open spec fn span(forest: Seq<Tree>) -> nat
    decreases forest,
{
    if forest.len() == 0 {
        0
    } else {
        let rest = span(forest.drop_last());
        let last = forest.last().height() + 1;
        if rest >= last { rest } else { last }
    }
}

/// Whether no two trees of the forest carry the same symbol.
pub open spec fn distinct(forest: Seq<Tree>) -> bool {
    forall|i: int, j: int| 0 <= i < j < forest.len() ==> (#[trigger] forest[i]).sym != (#[trigger] forest[j]).sym
}

/// Whether every tree of the forest carries a symbol.
pub open spec fn symbolic(forest: Seq<Tree>) -> bool {
    forall|i: int| 0 <= i < forest.len() ==> (#[trigger] forest[i]).sym is Some
}

/// Whether all trees of the group carry the same symbol.
pub open spec fn alike(group: Seq<Tree>) -> bool {
    forall|i: int| 0 <= i < group.len() ==> (#[trigger] group[i]).sym == group[0].sym
}

/// All children of the trees of `group`, in order.
pub open spec fn pooled(group: Seq<Tree>) -> Seq<Tree>
    decreases group.len(),
{
    if group.len() == 0 {
        Seq::empty()
    } else {
        pooled(group.drop_last()) + group.last().children
    }
}

/// The symbols that occur in `pool`, each once, in order of first occurrence.
pub open spec fn symbols(pool: Seq<Tree>) -> Seq<char>
    decreases pool.len(),
{
    if pool.len() == 0 {
        Seq::empty()
    } else {
        let before = symbols(pool.drop_last());
        match pool.last().sym {
            Some(c) => if before.contains(c) { before } else { before.push(c) },
            None => before,
        }
    }
}

/// Whether a tree carries the symbol `c`.
pub open spec fn carries(c: char) -> spec_fn(Tree) -> bool {
    |t: Tree| t.sym == Some(c)
}

/// The trees of `pool` that carry the symbol `c`, in order.
pub open spec fn select(pool: Seq<Tree>, c: char) -> Seq<Tree> {
    pool.filter(carries(c))
}

/// The tree that unifies a group of trees which stand for one symbol at one
/// position.
///
/// A group of one tree is that tree, as it is. A larger group gives a tree
/// with the symbol of the group's first tree. Its children come from the
/// pooled children of the group: there is one child for each symbol that
/// occurs among them, in order of first occurrence, and that child is the
/// merge of all pooled children that carry the symbol. Sentinels among the
/// pooled children carry no symbol and so go into no child. (The empty
/// group, which no merge ever forms, is given the sentinel.)
pub open spec fn merge_all(group: Seq<Tree>) -> Tree
    decreases span(group),
    via merge_all_decreases
{
    if group.len() == 0 {
        Tree::sentinel()
    } else if group.len() == 1 {
        group[0]
    } else {
        let pool = pooled(group);
        let syms = symbols(pool);
        Tree {
            sym: group[0].sym,
            children: Seq::new(
                syms.len(),
                |k: int|
                    if 0 <= k < syms.len() {
                        merge_all(select(pool, syms[k]))
                    } else {
                        Tree::sentinel()
                    },
            ),
        }
    }
}

#[via_fn]
proof fn merge_all_decreases(group: Seq<Tree>) {
    if group.len() >= 2 {
        let pool = pooled(group);
        let syms = symbols(pool);
        assert forall|k: int|
            0 <= k < syms.len() implies
            span(#[trigger] select(pool, syms[k])) < span(group) by {
            lemma_select_span(group, syms[k]);
        }
    }
}

} // verus!
