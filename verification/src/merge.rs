//! Merging two nodes that carry the same symbol.

use vstd::prelude::*;
use crate::tree::{Tree, merge_all, pooled, select, span, symbols};
use crate::tree_lemmas::{
    lemma_merge_all_height, lemma_merge_all_wf, lemma_pooled_add, lemma_pooled_one,
    lemma_select_carries, lemma_select_span, lemma_span_bounded, lemma_span_covers,
    lemma_symbols_distinct,
};
use crate::laws::law_merge_fold;
use crate::node::{Node, views};

verus! {

/// Whether `groups` holds the trees of `pool` by symbol: `syms` lists the
/// symbols of the pool in order of first occurrence, and each group holds,
/// in order, the trees that carry its symbol.
spec fn grouped(syms: Seq<char>, groups: Seq<Vec<Node>>, pool: Seq<Tree>) -> bool {
    &&& syms == symbols(pool)
    &&& groups.len() == syms.len()
    &&& forall|k: int| 0 <= k < groups.len() ==> views(#[trigger] groups[k]@) == select(pool, syms[k])
}

/// Index of `c` in `syms`, if it is there.
fn index_of(syms: &Vec<char>, c: char) -> (r: Option<usize>)
    ensures
        r matches Some(k) ==> k < syms.len() && syms[k as int] == c,
        r is None ==> !syms@.contains(c),
{
    let mut k: usize = 0;
    while k < syms.len()
        invariant
            k <= syms.len(),
            forall|j: int| 0 <= j < k ==> syms[j] != c,
        decreases syms.len() - k,
    {
        if syms[k] == c {
            return Some(k);
        }
        k += 1;
    }
    None
}

/// Moves each node of `kids` to the end of the group of its symbol, and
/// opens a group for a symbol that has none yet. Sentinels are dropped.
fn gather(syms: &mut Vec<char>, groups: &mut Vec<Vec<Node>>, kids: Vec<Node>, Ghost(pool): Ghost<Seq<Tree>>)
    requires
        grouped(old(syms)@, old(groups)@, pool),
    ensures
        grouped(final(syms)@, final(groups)@, pool + views(kids@)),
{
    assert(pool + views(kids@.take(0)) =~= pool);
    for x in it: kids
        invariant
            grouped(syms@, groups@, pool + views(kids@.take(it.index() as int))),
    {
        let ghost seen = pool + views(kids@.take(it.index() as int));
        let ghost next = pool + views(kids@.take(it.index() + 1));
        proof {
            assert(next =~= seen.push(x@));
            assert(next.drop_last() =~= seen);
            reveal(Seq::filter);
            lemma_symbols_distinct(seen);
        }
        match x.sym {
            Some(c) => {
                match index_of(syms, c) {
                    Some(k) => {
                        let ghost before = groups@;
                        groups[k].push(x);
                        proof {
                            assert forall|j: int|
                                0 <= j < groups@.len() implies
                                views(#[trigger] groups@[j]@) == select(next, syms@[j]) by {
                                if j == k {
                                    assert(views(groups@[j]@) =~= views(before[j]@).push(x@));
                                } else {
                                    assert(groups@[j] == before[j]);
                                }
                            }
                        }
                    },
                    None => {
                        let ghost before = groups@;
                        let mut group: Vec<Node> = Vec::new();
                        group.push(x);
                        syms.push(c);
                        groups.push(group);
                        proof {
                            lemma_select_carries(seen, c);
                            assert forall|j: int|
                                0 <= j < groups@.len() implies
                                views(#[trigger] groups@[j]@) == select(next, syms@[j]) by {
                                if j == before.len() {
                                    assert(views(groups@[j]@) =~= seq![x@]);
                                    assert(select(seen, c) =~= Seq::<Tree>::empty());
                                } else {
                                    assert(groups@[j] == before[j]);
                                }
                            }
                        }
                    },
                }
            },
            None => {},
        }
    }
    assert(kids@.take(kids@.len() as int) =~= kids@);
}

/// Two trees below a bound span at most that bound.
proof fn lemma_pair_span(a: Tree, b: Tree, bound: nat)
    requires
        a.height() < bound,
        b.height() < bound,
    ensures
        span(seq![a, b]) <= bound,
{
    lemma_span_bounded(seq![a, b], bound);
}

/// The pool of a pair is the children of the first, then those of the second.
proof fn lemma_pooled_pair(a: Tree, b: Tree)
    ensures
        pooled(seq![a, b]) == a.children + b.children,
{
    lemma_pooled_one(a);
    lemma_pooled_one(b);
    lemma_pooled_add(seq![a], seq![b]);
    assert(seq![a] + seq![b] =~= seq![a, b]);
}

/// Merges two nodes that carry the same symbol into one node with that
/// symbol. The children of both are pooled, those of `n` first; sentinels
/// among them are dropped; the others are grouped by symbol, the groups in
/// order of first occurrence; a group of one node gives that node as it
/// is, a larger group is folded into one node by merging from the left.
pub fn _merge_node(n: Node, m: Node) -> (r: Node)
    requires
        n.sym == m.sym,
    ensures
        r@ == Tree::merge(n@, m@),
        n@.wf() && m@.wf() ==> r@.wf(),
    decreases span(seq![n@, m@]),
{
    let sym = n.sym;
    let ghost whole = seq![n@, m@];
    let ghost pool = n@.children + m@.children;
    let mut syms: Vec<char> = Vec::new();
    let mut groups: Vec<Vec<Node>> = Vec::new();
    proof {
        lemma_pooled_pair(n@, m@);
        assert(Seq::<Tree>::empty() + n@.children =~= n@.children);
        if n@.wf() && m@.wf() {
            lemma_merge_all_wf(whole);
        }
    }
    gather(&mut syms, &mut groups, n.children, Ghost(Seq::empty()));
    gather(&mut syms, &mut groups, m.children, Ghost(n@.children));

    let mut children: Vec<Node> = Vec::new();
    for group in it: groups
        invariant
            whole == seq![n@, m@],
            pool == pooled(whole),
            grouped(syms@, groups@, pool),
            children@.len() == it.index(),
            forall|k: int| 0 <= k < it.index() ==> (#[trigger] children@[k])@ == merge_all(select(pool, syms@[k])),
    {
        let ghost c = syms@[it.index() as int];
        let ghost chosen = select(pool, c);
        proof {
            assert(views(group@) == chosen);
            assert(syms@.contains(c));
            lemma_select_carries(pool, c);
            lemma_select_span(whole, c);
        }
        let mut merged: Option<Node> = None;
        for x in jt: group
            invariant
                whole == seq![n@, m@],
                views(group@) == chosen,
                chosen.len() > 0,
                span(chosen) < span(whole),
                forall|i: int| 0 <= i < chosen.len() ==> (#[trigger] chosen[i]).sym == Some(c),
                jt.index() == 0 ==> merged is None,
                jt.index() > 0 ==> merged is Some && merged->0@ == merge_all(chosen.take(jt.index() as int)),
        {
            let ghost done = chosen.take(jt.index() as int);
            proof {
                assert(x@ == chosen[jt.index() as int]);
                assert(chosen.take(jt.index() + 1) =~= done.push(x@));
            }
            merged = Some(
                match merged {
                    None => {
                        proof {
                            assert(done.push(x@) =~= seq![x@]);
                        }
                        x
                    },
                    Some(acc) => {
                        proof {
                            lemma_merge_all_height(done);
                            lemma_span_covers(chosen, jt.index() as int);
                            assert forall|i: int|
                                0 <= i < done.len() implies
                                (#[trigger] done[i]).height() < span(chosen) by {
                                lemma_span_covers(chosen, i);
                            }
                            lemma_span_bounded(done, span(chosen));
                            lemma_pair_span(acc@, x@, span(chosen));
                            if done.len() >= 2 {
                                assert(merge_all(done).sym == done[0].sym);
                            }
                            assert(done[0] == chosen[0]);
                            law_merge_fold(done, x@);
                        }
                        _merge_node(acc, x)
                    },
                },
            );
        }
        proof {
            assert(chosen.take(chosen.len() as int) =~= chosen);
        }
        match merged {
            Some(child) => {
                children.push(child);
            },
            None => {},
        }
    }
    let r = Node { sym, children };
    proof {
        assert(r@.children =~= merge_all(whole).children);
    }
    r
}

} // verus!
