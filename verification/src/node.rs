//! The executable node, and the chain of nodes that spells a string.

use vstd::prelude::*;
use vstd::std_specs::iter::IteratorSpec;
use std::str::Chars;
use crate::tree::Tree;
use crate::laws::law_chain_wf;

verus! {

/// A node of the trie: one symbol and the nodes below it.
///
/// A node without a symbol is a sentinel that marks the end of a word.
#[derive(Debug)]
pub struct Node {
    /// The character this node stands for; `None` for a sentinel.
    pub sym: Option<char>,
    /// The nodes below this one, in stored order.
    pub children: Vec<Node>,
}

impl View for Node {
    type V = Tree;

    open spec fn view(&self) -> Tree
        decreases self,
    {
        Tree { sym: self.sym, children: views(self.children@) }
    }
}

/// The values of a sequence of nodes.
pub open spec fn views(nodes: Seq<Node>) -> Seq<Tree>
    decreases nodes,
{
    Seq::new(
        nodes.len(),
        |i: int|
            if 0 <= i < nodes.len() {
                nodes[i]@
            } else {
                Tree::sentinel()
            },
    )
}

impl Node {
    /// A node with the given symbol and no children.
    pub fn new_empty(sym: Option<char>) -> (r: Node)
        ensures
            r@ == (Tree { sym, children: Seq::empty() }),
    {
        let r = Node { sym, children: Vec::new() };
        assert(r@.children =~= Seq::empty());
        r
    }

    /// The chain that spells `s`: one node for each character, each the
    /// only child of the one before, and a sentinel below the last. The
    /// empty string gives the sentinel alone.
    pub fn from_string(s: &String) -> (r: Node)
        ensures
            r@ == Tree::chain(s@),
            r@.wf(),
    {
        broadcast use vstd::string::axiom_spec_iter;

        let mut chars = s.as_str().chars();
        proof {
            law_chain_wf(s@);
        }
        Node::_from_iter(&mut chars)
    }

    /// The chain that spells what is left in `i`, which is read to its end.
    pub fn _from_iter(i: &mut Chars) -> (r: Node)
        requires
            (*old(i)).decrease() is Some,
        ensures
            r@ == Tree::chain((*old(i)).remaining()),
            (*final(i)).remaining() == Seq::<char>::empty(),
        decreases (*old(i)).decrease()->0,
    {
        broadcast use vstd::string::next_postcondition;

        let c = i.next();
        match c {
            Some(_) => {
                let child = Node::_from_iter(i);
                let mut children = Vec::new();
                children.push(child);
                let r = Node { sym: c, children };
                assert(r@.children =~= seq![child@]);
                r
            },
            None => Node::new_empty(None),
        }
    }
}

} // verus!
