//! What holds of chains, merges, insertions, identifiers and descriptions.

use vstd::prelude::*;
use crate::tree::{Tree, distinct, merge_all};
use crate::tree_lemmas::{
    lemma_merge_all_flatten, lemma_merge_all_paths, lemma_merge_all_tidy, lemma_merge_all_wf,
};
use crate::label::{
    child_label, label, lemma_code_injective, lemma_decimal_digits, lemma_decimal_injective,
    lemma_reach_len, numeral, reach, root_label,
};
use crate::dot::{
    RankDir, SentinelPolicy, declared_once, edges_joined, forest_lines, graph_text, node_lines,
};
use crate::dot_lemmas::{
    lemma_forest_declared_once, lemma_forest_edges_joined, lemma_forest_policies_agree,
    lemma_node_declared_once, lemma_node_edges_joined,
};
use crate::forest::{
    forest_has_path, forest_of, forest_paths, insert, lemma_insert_distinct, lemma_position_first,
    position,
};

verus! {

/// The chain that spells a string is well-formed.
pub proof fn law_chain_wf(s: Seq<char>)
    ensures
        Tree::chain(s).wf(),
    decreases s.len(),
{
    if s.len() > 0 {
        law_chain_wf(s.drop_first());
        let t = Tree::chain(s);
        assert(t.children[0] == Tree::chain(s.drop_first()));
    }
}

/// The chain that spells a string is tidy: its one sentinel is an only child.
pub proof fn law_chain_tidy(s: Seq<char>)
    ensures
        Tree::chain(s).tidy(),
    decreases s.len(),
{
    if s.len() > 0 {
        law_chain_tidy(s.drop_first());
        let t = Tree::chain(s);
        assert(t.children[0] == Tree::chain(s.drop_first()));
    }
}

/// Folding a group from the left, one merge for each further tree, gives
/// the merge of the group.
pub proof fn law_merge_fold(group: Seq<Tree>, t: Tree)
    requires
        group.len() >= 1,
    ensures
        Tree::merge(merge_all(group), t) == merge_all(group.push(t)),
{
    lemma_merge_all_flatten(Seq::empty(), group, seq![t]);
    assert(Seq::<Tree>::empty() + seq![merge_all(group)] + seq![t] =~= seq![merge_all(group), t]);
    assert(Seq::<Tree>::empty() + group + seq![t] =~= group.push(t));
}

/// Merging is associative: however three trees are grouped, the merge is
/// the same tree, the merge of the three as one group.
pub proof fn law_merge_associative(a: Tree, b: Tree, c: Tree)
    ensures
        Tree::merge(Tree::merge(a, b), c) == Tree::merge(a, Tree::merge(b, c)),
        Tree::merge(Tree::merge(a, b), c) == merge_all(seq![a, b, c]),
{
    lemma_merge_all_flatten(Seq::empty(), seq![a, b], seq![c]);
    assert(Seq::<Tree>::empty() + seq![merge_all(seq![a, b])] + seq![c] =~= seq![Tree::merge(a, b), c]);
    assert(Seq::<Tree>::empty() + seq![a, b] + seq![c] =~= seq![a, b, c]);
    lemma_merge_all_flatten(seq![a], seq![b, c], Seq::empty());
    assert(seq![a] + seq![merge_all(seq![b, c])] + Seq::<Tree>::empty() =~= seq![a, Tree::merge(b, c)]);
    assert(seq![a] + seq![b, c] + Seq::<Tree>::empty() =~= seq![a, b, c]);
}

/// The symbol paths of a merge are those of the two merged trees: merging
/// loses no path and invents none.
pub proof fn law_merge_paths(a: Tree, b: Tree)
    requires
        a.sym == b.sym,
    ensures
        Tree::merge(a, b).paths() == a.paths().union(b.paths()),
{
    let group = seq![a, b];
    assert forall|path: Seq<char>| Tree::merge(a, b).has_path(path) <==> a.has_path(path) || b.has_path(path) by {
        lemma_merge_all_paths(group, path);
        if a.has_path(path) {
            assert(group[0].has_path(path));
        }
        if b.has_path(path) {
            assert(group[1].has_path(path));
        }
    }
    assert(Tree::merge(a, b).paths() =~= a.paths().union(b.paths()));
}

/// Merging is commutative up to the order of children: both orders give
/// trees with the same symbol paths.
pub proof fn law_merge_commutative(a: Tree, b: Tree)
    requires
        a.sym == b.sym,
    ensures
        Tree::merge(a, b).paths() == Tree::merge(b, a).paths(),
{
    law_merge_paths(a, b);
    law_merge_paths(b, a);
    assert(a.paths().union(b.paths()) =~= b.paths().union(a.paths()));
}

/// The merge of two well-formed trees is well-formed.
pub proof fn law_merge_wf(a: Tree, b: Tree)
    requires
        a.sym == b.sym,
        a.wf(),
        b.wf(),
    ensures
        Tree::merge(a, b).wf(),
{
    lemma_merge_all_wf(seq![a, b]);
}

/// The merge of two tidy trees is tidy.
pub proof fn law_merge_tidy(a: Tree, b: Tree)
    requires
        a.tidy(),
        b.tidy(),
    ensures
        Tree::merge(a, b).tidy(),
{
    let pair = seq![a, b];
    assert(pair[0].tidy() && pair[1].tidy());
    lemma_merge_all_tidy(pair);
}

/// The symbol paths of a forest after an insertion are those it had and
/// those of the inserted tree.
pub proof fn law_insert_paths(forest: Seq<Tree>, t: Tree)
    ensures
        forest_paths(insert(forest, t)) == forest_paths(forest).union(t.paths()),
{
    let at = position(forest, t.sym);
    let after = insert(forest, t);
    lemma_position_first(forest, t.sym);
    assert forall|path: Seq<char>| forest_has_path(after, path) <==> forest_has_path(forest, path) || t.has_path(path) by {
        if at < forest.len() {
            let pair = seq![forest[at], t];
            let merged = Tree::merge(forest[at], t);
            let last = after.len() - 1;
            assert(after[last] == merged);
            lemma_merge_all_paths(pair, path);
            if forest_has_path(after, path) {
                let i = choose|i: int| 0 <= i < after.len() && (#[trigger] after[i]).has_path(path);
                if i < last {
                    let j = if i < at { i } else { i + 1 };
                    assert(after[i] == forest[j]);
                } else {
                    let k = choose|k: int| 0 <= k < pair.len() && (#[trigger] pair[k]).has_path(path);
                    if k == 0 {
                        assert(forest[at].has_path(path));
                    }
                }
            }
            if forest_has_path(forest, path) {
                let j = choose|j: int| 0 <= j < forest.len() && (#[trigger] forest[j]).has_path(path);
                if j == at {
                    assert(pair[0].has_path(path));
                    assert(after[last].has_path(path));
                } else {
                    let i = if j < at { j } else { j - 1 };
                    assert(after[i] == forest[j]);
                }
            }
            if t.has_path(path) {
                assert(pair[1].has_path(path));
                assert(after[last].has_path(path));
            }
        } else {
            let last = after.len() - 1;
            assert(after[last] == t);
            if forest_has_path(after, path) {
                let i = choose|i: int| 0 <= i < after.len() && (#[trigger] after[i]).has_path(path);
                if i < last {
                    assert(after[i] == forest[i]);
                }
            }
            if forest_has_path(forest, path) {
                let j = choose|j: int| 0 <= j < forest.len() && (#[trigger] forest[j]).has_path(path);
                assert(after[j] == forest[j]);
            }
        }
    }
    assert(forest_paths(after) =~= forest_paths(forest).union(t.paths()));
}

/// Inserting a tree a second time changes no symbol path of the forest.
pub proof fn law_reinsert_paths(forest: Seq<Tree>, t: Tree)
    ensures
        forest_paths(insert(insert(forest, t), t)) == forest_paths(insert(forest, t)),
{
    law_insert_paths(forest, t);
    law_insert_paths(insert(forest, t), t);
    assert(forest_paths(forest).union(t.paths()).union(t.paths()) =~= forest_paths(forest).union(t.paths()));
}

/// Whatever words are inserted, in whatever order, no two roots of the
/// forest carry the same symbol, and every root is well-formed.
pub proof fn law_roots_distinct(words: Seq<Seq<char>>)
    ensures
        distinct(forest_of(words)),
        forall|i: int| 0 <= i < forest_of(words).len() ==> (#[trigger] forest_of(words)[i]).wf(),
    decreases words.len(),
{
    if words.len() > 0 {
        let before = forest_of(words.drop_last());
        let t = Tree::chain(words.last());
        let after = forest_of(words);
        law_roots_distinct(words.drop_last());
        lemma_insert_distinct(before, t);
        law_chain_wf(words.last());
        let at = position(before, t.sym);
        lemma_position_first(before, t.sym);
        assert forall|i: int| 0 <= i < after.len() implies (#[trigger] after[i]).wf() by {
            if at < before.len() {
                if i < after.len() - 1 {
                    let j = if i < at { i } else { i + 1 };
                    assert(after[i] == before[j]);
                } else {
                    law_merge_wf(before[at], t);
                }
            } else if i < before.len() {
                assert(after[i] == before[i]);
            }
        }
    }
}

/// In the forest of any list of words every tree is tidy: a sentinel is
/// never stored beside another child.
pub proof fn law_words_tidy(words: Seq<Seq<char>>)
    ensures
        forall|i: int| 0 <= i < forest_of(words).len() ==> (#[trigger] forest_of(words)[i]).tidy(),
    decreases words.len(),
{
    if words.len() > 0 {
        let before = forest_of(words.drop_last());
        let t = Tree::chain(words.last());
        let after = forest_of(words);
        law_words_tidy(words.drop_last());
        law_chain_tidy(words.last());
        let at = position(before, t.sym);
        lemma_position_first(before, t.sym);
        assert forall|i: int| 0 <= i < after.len() implies (#[trigger] after[i]).tidy() by {
            if at < before.len() {
                if i < after.len() - 1 {
                    let j = if i < at { i } else { i + 1 };
                    assert(after[i] == before[j]);
                } else {
                    law_merge_tidy(before[at], t);
                }
            } else if i < before.len() {
                assert(after[i] == before[i]);
            }
        }
    }
}

/// Two positions with the same label are the same position: they have the
/// same parent label and the same symbol.
pub proof fn law_child_label_injective(p: Seq<char>, s: Option<char>, q: Seq<char>, t: Option<char>)
    requires
        child_label(p, s) == child_label(q, t),
    ensures
        p == q,
        s == t,
{
    let tail_p = numeral(s);
    let tail_q = numeral(t);
    let left = child_label(p, s);
    let right = child_label(q, t);
    assert(left =~= p.push('_') + tail_p);
    assert(right =~= q.push('_') + tail_q);
    if s is Some {
        lemma_decimal_digits(s->0 as u32 as nat);
    }
    if t is Some {
        lemma_decimal_digits(t->0 as u32 as nat);
    }
    if tail_p.len() < tail_q.len() {
        assert(left[p.len() as int] == '_');
        assert(right[p.len() as int] == tail_q[p.len() - q.len() - 1]);
    } else if tail_q.len() < tail_p.len() {
        assert(right[q.len() as int] == '_');
        assert(left[q.len() as int] == tail_p[q.len() - p.len() - 1]);
    } else {
        assert(p =~= left.subrange(0, p.len() as int));
        assert(q =~= right.subrange(0, q.len() as int));
        assert(tail_p =~= left.subrange(p.len() as int + 1, left.len() as int));
        assert(tail_q =~= right.subrange(q.len() as int + 1, right.len() as int));
        match (s, t) {
            (Some(c), Some(d)) => {
                lemma_decimal_injective(c as u32 as nat, d as u32 as nat);
                lemma_code_injective(c, d);
            },
            _ => {},
        }
    }
}

/// Two ways down from one label that reach the same label are the same way.
pub proof fn law_reach_injective(from: Seq<char>, p: Seq<char>, q: Seq<char>)
    requires
        reach(from, p) == reach(from, q),
    ensures
        p == q,
    decreases p.len(),
{
    lemma_reach_len(from, p);
    lemma_reach_len(from, q);
    if p.len() > 0 && q.len() > 0 {
        law_child_label_injective(
            reach(from, p.drop_last()),
            Some(p.last()),
            reach(from, q.drop_last()),
            Some(q.last()),
        );
        law_reach_injective(from, p.drop_last(), q.drop_last());
        assert(p =~= p.drop_last().push(p.last()));
        assert(q =~= q.drop_last().push(q.last()));
    } else {
        assert(p =~= q);
    }
}

/// Two paths with the same label are the same path: nodes reached along
/// different paths have different identifiers.
pub proof fn law_label_injective(p: Seq<char>, q: Seq<char>)
    requires
        label(p) == label(q),
    ensures
        p == q,
{
    law_reach_injective(root_label(), p, q);
}

/// The description of a forest declares no node twice, where no two roots
/// carry the same symbol and every root is well-formed: each node has an
/// identifier of its own.
pub proof fn law_declared_once(forest: Seq<Tree>, policy: SentinelPolicy)
    requires
        distinct(forest),
        forall|i: int| 0 <= i < forest.len() ==> (#[trigger] forest[i]).wf(),
    ensures
        declared_once(forest_lines(forest, policy)),
{
    lemma_forest_declared_once(forest, policy);
}

/// The description of a well-formed tree, wherever it stands, declares no
/// node twice.
pub proof fn law_node_declared_once(t: Tree, prefix: Seq<char>, policy: SentinelPolicy)
    requires
        t.wf(),
    ensures
        declared_once(node_lines(t, label(prefix), policy)),
{
    lemma_node_declared_once(t, label(prefix), policy);
}

/// The description of the forest of any list of words declares no node
/// twice.
pub proof fn law_words_declared_once(words: Seq<Seq<char>>, policy: SentinelPolicy)
    ensures
        declared_once(forest_lines(forest_of(words), policy)),
{
    law_roots_distinct(words);
    law_declared_once(forest_of(words), policy);
}

/// Every edge in the description of a forest joins two nodes that the
/// description declares.
pub proof fn law_edges_joined(forest: Seq<Tree>, policy: SentinelPolicy)
    ensures
        edges_joined(forest_lines(forest, policy)),
{
    lemma_forest_edges_joined(forest, policy);
}

/// Every edge in the description of a tree joins two nodes that the
/// description declares.
pub proof fn law_node_edges_joined(t: Tree, prefix: Seq<char>, policy: SentinelPolicy)
    ensures
        edges_joined(node_lines(t, label(prefix), policy)),
{
    lemma_node_edges_joined(t, label(prefix), policy);
}

/// The description of the forest of any list of words is the same under
/// both policies: the choice matters only for forests that are built by
/// hand with a sentinel beside other children.
pub proof fn law_words_policies_agree(words: Seq<Seq<char>>, dir: RankDir)
    ensures
        graph_text(forest_of(words), dir, SentinelPolicy::Stop) == graph_text(
            forest_of(words),
            dir,
            SentinelPolicy::Skip,
        ),
{
    law_words_tidy(words);
    lemma_forest_policies_agree(forest_of(words));
}

} // verus!
