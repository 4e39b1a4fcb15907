//! Forests of trees: what it means to insert a tree.

use vstd::prelude::*;
use crate::tree::{Tree, distinct};

verus! {

/// Index of the first tree of the forest that carries `sym`; the length of
/// the forest where none does.
pub open spec fn position(forest: Seq<Tree>, sym: Option<char>) -> int
    decreases forest.len(),
{
    if forest.len() == 0 {
        0
    } else if forest[0].sym == sym {
        0
    } else {
        1 + position(forest.drop_first(), sym)
    }
}

/// The forest after `t` is inserted: `t` is merged into the first root that
/// carries its symbol, and the merged root moves to the end; where no root
/// carries its symbol, `t` becomes the last root.
pub open spec fn insert(forest: Seq<Tree>, t: Tree) -> Seq<Tree> {
    let at = position(forest, t.sym);
    if at < forest.len() {
        forest.remove(at).push(Tree::merge(forest[at], t))
    } else {
        forest.push(t)
    }
}

/// The forest that holds the words of a list, inserted one after another
/// into the empty forest.
pub open spec fn forest_of(words: Seq<Seq<char>>) -> Seq<Tree>
    decreases words.len(),
{
    if words.len() == 0 {
        Seq::empty()
    } else {
        insert(forest_of(words.drop_last()), Tree::chain(words.last()))
    }
}

/// Whether `path` is a symbol path of some tree of the forest.
pub open spec fn forest_has_path(forest: Seq<Tree>, path: Seq<char>) -> bool {
    exists|i: int| 0 <= i < forest.len() && (#[trigger] forest[i]).has_path(path)
}

/// The symbol paths of the forest.
pub open spec fn forest_paths(forest: Seq<Tree>) -> Set<Seq<char>> {
    Set::new(|path: Seq<char>| forest_has_path(forest, path))
}

/// `position` is the index of the first tree that carries the symbol.
pub proof fn lemma_position(forest: Seq<Tree>, sym: Option<char>, at: int)
    requires
        0 <= at <= forest.len(),
        forall|j: int| 0 <= j < at ==> (#[trigger] forest[j]).sym != sym,
        at < forest.len() ==> forest[at].sym == sym,
    ensures
        position(forest, sym) == at,
    decreases forest.len(),
{
    if forest.len() > 0 && at > 0 {
        let rest = forest.drop_first();
        assert(forest[0].sym != sym);
        assert forall|j: int| 0 <= j < at - 1 implies (#[trigger] rest[j]).sym != sym by {
            assert(rest[j] == forest[j + 1]);
        }
        lemma_position(rest, sym, at - 1);
    }
}

/// `position` stays within the forest, stops at a tree that carries the
/// symbol, and passes none that does.
pub proof fn lemma_position_first(forest: Seq<Tree>, sym: Option<char>)
    ensures
        0 <= position(forest, sym) <= forest.len(),
        position(forest, sym) < forest.len() ==> forest[position(forest, sym)].sym == sym,
        forall|j: int| 0 <= j < position(forest, sym) ==> (#[trigger] forest[j]).sym != sym,
    decreases forest.len(),
{
    if forest.len() > 0 && forest[0].sym != sym {
        let rest = forest.drop_first();
        lemma_position_first(rest, sym);
        assert forall|j: int|
            0 <= j < position(forest, sym) implies
            (#[trigger] forest[j]).sym != sym by {
            if j > 0 {
                assert(rest[j - 1] == forest[j]);
            }
        }
    }
}

/// Inserting into a forest of distinct roots leaves the roots distinct.
pub proof fn lemma_insert_distinct(forest: Seq<Tree>, t: Tree)
    requires
        distinct(forest),
    ensures
        distinct(insert(forest, t)),
{
    let at = position(forest, t.sym);
    lemma_position_first(forest, t.sym);
    let after = insert(forest, t);
    if at < forest.len() {
        let merged = Tree::merge(forest[at], t);
        assert(merged.sym == t.sym);
        let rest = forest.remove(at);
        assert forall|i: int, j: int|
            0 <= i < j < after.len() implies
            (#[trigger] after[i]).sym != (#[trigger] after[j]).sym by {
            let a = if i < at { i } else { i + 1 };
            assert(after[i] == forest[a]);
            if j < rest.len() {
                let b = if j < at { j } else { j + 1 };
                assert(after[j] == forest[b]);
            } else {
                assert(after[j] == merged);
                if a > at {
                    assert(forest[at].sym != forest[a].sym);
                }
            }
        }
    } else {
        assert forall|i: int, j: int|
            0 <= i < j < after.len() implies
            (#[trigger] after[i]).sym != (#[trigger] after[j]).sym by {
            assert(after[i] == forest[i]);
            if j < forest.len() {
                assert(after[j] == forest[j]);
            }
        }
    }
}

} // verus!
