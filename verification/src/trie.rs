//! The trie: a forest of nodes with one root for each first symbol.

use vstd::prelude::*;
use crate::tree::{Tree, distinct};
use crate::forest::{insert, lemma_insert_distinct, lemma_position};
use crate::node::{Node, views};
use crate::merge::_merge_node;

verus! {

/// A forest of root nodes, one for each first symbol: no two roots carry
/// the same symbol.
pub struct Trie {
    children: Vec<Node>,
}

impl View for Trie {
    type V = Seq<Tree>;

    closed spec fn view(&self) -> Seq<Tree> {
        views(self.children@)
    }
}

impl Trie {
    /// No two roots carry the same symbol.
    #[verifier::type_invariant]
    spec fn inv(&self) -> bool {
        distinct(views(self.children@))
    }

    /// The empty trie.
    pub fn new() -> (r: Trie)
        ensures
            r@ == Seq::<Tree>::empty(),
    {
        let r = Trie { children: Vec::new() };
        assert(r@ =~= Seq::<Tree>::empty());
        r
    }

    /// The roots, in stored order.
    pub fn roots(&self) -> (r: &Vec<Node>)
        ensures
            views(r@) == self@,
            distinct(self@),
    {
        proof {
            use_type_invariant(&*self);
        }
        &self.children
    }

    /// Inserts a node. Where a root carries its symbol, that root is taken
    /// out, merged with the node, and the merged node is put back as the
    /// last root. Where none does, the node becomes the last root.
    pub fn insert(&mut self, m: Node)
        ensures
            final(self)@ == insert(old(self)@, m@),
            distinct(final(self)@),
    {
        proof {
            use_type_invariant(&*self);
            lemma_insert_distinct(self@, m@);
        }
        let ghost before = self@;
        let mut roots: Vec<Node> = Vec::new();
        std::mem::swap(&mut roots, &mut self.children);
        let mut at: usize = 0;
        while at < roots.len() && roots[at].sym != m.sym
            invariant
                at <= roots.len(),
                views(roots@) == before,
                forall|j: int| 0 <= j < at ==> (#[trigger] before[j]).sym != m.sym,
            decreases roots.len() - at,
        {
            at += 1;
        }
        proof {
            lemma_position(before, m.sym, at as int);
        }
        if at < roots.len() {
            let found = roots.remove(at);
            let merged = _merge_node(found, m);
            roots.push(merged);
        } else {
            roots.push(m);
        }
        assert(views(roots@) =~= insert(before, m@));
        self.children = roots;
    }
}

} // verus!
