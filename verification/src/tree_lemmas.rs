//! Proofs about pools, symbols, selections and merges of trees.

use vstd::prelude::*;
use crate::tree::{Tree, alike, carries, merge_all, pooled, select, span, symbolic, symbols};

verus! {

/// Every tree of a forest lies strictly below the forest's span.
pub proof fn lemma_span_covers(forest: Seq<Tree>, i: int)
    requires
        0 <= i < forest.len(),
    ensures
        forest[i].height() < span(forest),
    decreases forest.len(),
{
    if i < forest.len() - 1 {
        lemma_span_covers(forest.drop_last(), i);
    }
}

/// A forest whose trees all lie strictly below `bound` spans at most `bound`.
pub proof fn lemma_span_bounded(forest: Seq<Tree>, bound: nat)
    requires
        forall|i: int| 0 <= i < forest.len() ==> (#[trigger] forest[i]).height() < bound,
    ensures
        span(forest) <= bound,
    decreases forest.len(),
{
    if forest.len() > 0 {
        assert(forest.last().height() < bound);
        assert forall|i: int|
            0 <= i < forest.drop_last().len() implies
            (#[trigger] forest.drop_last()[i]).height() < bound by {
            assert(forest.drop_last()[i] == forest[i]);
        }
        lemma_span_bounded(forest.drop_last(), bound);
    }
}

/// Every pooled tree is a child of some tree of the group.
pub proof fn lemma_pooled_origin(group: Seq<Tree>, i: int) -> (at: (int, int))
    requires
        0 <= i < pooled(group).len(),
    ensures
        0 <= at.0 < group.len(),
        0 <= at.1 < group[at.0].children.len(),
        pooled(group)[i] == group[at.0].children[at.1],
    decreases group.len(),
{
    let before = pooled(group.drop_last());
    if i < before.len() {
        lemma_pooled_origin(group.drop_last(), i)
    } else {
        (group.len() - 1, i - before.len())
    }
}

/// Every child of a tree of the group is in the pool.
pub proof fn lemma_pooled_contains(group: Seq<Tree>, j: int, l: int)
    requires
        0 <= j < group.len(),
        0 <= l < group[j].children.len(),
    ensures
        pooled(group).contains(group[j].children[l]),
    decreases group.len(),
{
    let before = pooled(group.drop_last());
    if j < group.len() - 1 {
        lemma_pooled_contains(group.drop_last(), j, l);
        let i = choose|i: int| 0 <= i < before.len() && before[i] == group[j].children[l];
        assert(pooled(group)[i] == group[j].children[l]);
    } else {
        assert(pooled(group)[before.len() + l] == group[j].children[l]);
    }
}

/// The pool of a single tree is its children.
pub proof fn lemma_pooled_one(t: Tree)
    ensures
        pooled(seq![t]) == t.children,
{
    assert(seq![t].drop_last() =~= Seq::<Tree>::empty());
    assert(pooled(seq![t].drop_last()) =~= Seq::<Tree>::empty());
    assert(pooled(seq![t]) =~= t.children);
}

/// Pooling distributes over concatenation.
pub proof fn lemma_pooled_add(a: Seq<Tree>, b: Seq<Tree>)
    ensures
        pooled(a + b) == pooled(a) + pooled(b),
    decreases b.len(),
{
    if b.len() == 0 {
        assert(a + b =~= a);
        assert(pooled(a) + pooled(b) =~= pooled(a));
    } else {
        assert((a + b).drop_last() =~= a + b.drop_last());
        lemma_pooled_add(a, b.drop_last());
        assert(pooled(a + b) =~= pooled(a) + pooled(b));
    }
}

/// The trees that one symbol selects from the pool of a group span less
/// than the group: they are children of its trees.
pub proof fn lemma_select_span(group: Seq<Tree>, c: char)
    requires
        group.len() >= 1,
    ensures
        span(select(pooled(group), c)) < span(group),
{
    let pool = pooled(group);
    let chosen = select(pool, c);
    lemma_span_covers(group, 0);
    let bound = (span(group) - 1) as nat;
    assert forall|i: int| 0 <= i < chosen.len() implies (#[trigger] chosen[i]).height() < bound by {
        assert(chosen.contains(chosen[i]));
        pool.lemma_filter_contains_rev(carries(c), chosen[i]);
        let j = choose|j: int| 0 <= j < pool.len() && pool[j] == chosen[i];
        let at = lemma_pooled_origin(group, j);
        lemma_span_covers(group[at.0].children, at.1);
        lemma_span_covers(group, at.0);
    }
    lemma_span_bounded(chosen, bound);
}

/// A symbol is listed by `symbols` exactly when some tree of the pool carries it.
pub proof fn lemma_symbols_contains(pool: Seq<Tree>, c: char)
    ensures
        symbols(pool).contains(c) <==> exists|i: int| 0 <= i < pool.len() && (#[trigger] pool[i]).sym == Some(c),
    decreases pool.len(),
{
    if pool.len() > 0 {
        let front = pool.drop_last();
        let before = symbols(front);
        lemma_symbols_contains(front, c);
        if symbols(pool).contains(c) {
            if before.contains(c) {
                let i = choose|i: int| 0 <= i < front.len() && (#[trigger] front[i]).sym == Some(c);
                assert(pool[i].sym == Some(c));
            } else {
                assert(symbols(pool) == before.push(c));
                assert(pool[pool.len() - 1].sym == Some(c));
            }
        }
        if exists|i: int| 0 <= i < pool.len() && (#[trigger] pool[i]).sym == Some(c) {
            let i = choose|i: int| 0 <= i < pool.len() && (#[trigger] pool[i]).sym == Some(c);
            if i < front.len() {
                assert(front[i].sym == Some(c));
                assert(before.contains(c));
                if symbols(pool) != before {
                    assert(symbols(pool).drop_last() == before);
                    let j = choose|j: int| 0 <= j < before.len() && before[j] == c;
                    assert(symbols(pool)[j] == c);
                }
            } else {
                if before.contains(c) {
                } else {
                    assert(symbols(pool) == before.push(c));
                    assert(symbols(pool)[before.len() as int] == c);
                }
            }
        }
    }
}

/// `symbols` lists no symbol twice.
pub proof fn lemma_symbols_distinct(pool: Seq<Tree>)
    ensures
        symbols(pool).no_duplicates(),
    decreases pool.len(),
{
    if pool.len() > 0 {
        lemma_symbols_distinct(pool.drop_last());
    }
}

/// A listed symbol selects at least one tree, and every selected tree carries it.
pub proof fn lemma_select_carries(pool: Seq<Tree>, c: char)
    ensures
        symbols(pool).contains(c) <==> select(pool, c).len() > 0,
        forall|i: int| 0 <= i < select(pool, c).len() ==> (#[trigger] select(pool, c)[i]).sym == Some(c),
{
    broadcast use vstd::seq_lib::group_filter_ensures;
    lemma_symbols_contains(pool, c);
    let chosen = select(pool, c);
    if symbols(pool).contains(c) {
        let i = choose|i: int| 0 <= i < pool.len() && (#[trigger] pool[i]).sym == Some(c);
        assert(carries(c)(pool[i]));
        assert(chosen.contains(pool[i]));
    }
    if chosen.len() > 0 {
        assert(carries(c)(chosen[0]));
        assert(chosen.contains(chosen[0]));
        pool.lemma_filter_contains_rev(carries(c), chosen[0]);
        let j = choose|j: int| 0 <= j < pool.len() && pool[j] == chosen[0];
        assert(pool[j].sym == Some(c));
    }
    assert forall|i: int| 0 <= i < chosen.len() implies (#[trigger] chosen[i]).sym == Some(c) by {
        assert(carries(c)(chosen[i]));
    }
}

/// `seen`, followed by the symbols of `more` that it lacks, in order.
pub open spec fn extend(seen: Seq<char>, more: Seq<char>) -> Seq<char>
    decreases more.len(),
{
    if more.len() == 0 {
        seen
    } else {
        let before = extend(seen, more.drop_last());
        if before.contains(more.last()) {
            before
        } else {
            before.push(more.last())
        }
    }
}

proof fn lemma_extend_contains(seen: Seq<char>, more: Seq<char>, c: char)
    ensures
        extend(seen, more).contains(c) <==> seen.contains(c) || more.contains(c),
    decreases more.len(),
{
    broadcast use vstd::seq_lib::group_seq_properties;
    if more.len() > 0 {
        lemma_extend_contains(seen, more.drop_last(), c);
        assert(more =~= more.drop_last().push(more.last()));
    }
}

/// The symbols of a concatenation are those of its first part, extended by
/// those of its second part.
pub proof fn lemma_symbols_add(a: Seq<Tree>, b: Seq<Tree>)
    ensures
        symbols(a + b) == extend(symbols(a), symbols(b)),
    decreases b.len(),
{
    if b.len() == 0 {
        assert(a + b =~= a);
    } else {
        let front = b.drop_last();
        assert((a + b).drop_last() =~= a + front);
        lemma_symbols_add(a, front);
        match b.last().sym {
            None => {},
            Some(c) => {
                lemma_extend_contains(symbols(a), symbols(front), c);
                if !symbols(front).contains(c) {
                    assert(symbols(front).push(c).drop_last() =~= symbols(front));
                }
            },
        }
    }
}

/// Trees that carry, one each and in order, the symbols of a list without
/// repetition: their symbols are that list, and each symbol selects its tree.
pub proof fn lemma_labelled(kids: Seq<Tree>, syms: Seq<char>)
    requires
        kids.len() == syms.len(),
        syms.no_duplicates(),
        forall|k: int| 0 <= k < kids.len() ==> (#[trigger] kids[k]).sym == Some(syms[k]),
    ensures
        symbols(kids) == syms,
        forall|k: int| 0 <= k < kids.len() ==> #[trigger] select(kids, syms[k]) == seq![kids[k]],
        forall|c: char| !syms.contains(c) ==> #[trigger] select(kids, c) == Seq::<Tree>::empty(),
    decreases kids.len(),
{
    reveal(Seq::filter);
    if kids.len() > 0 {
        let front = kids.drop_last();
        let heads = syms.drop_last();
        let n = kids.len() - 1;
        assert forall|k: int|
            0 <= k < front.len() implies
            (#[trigger] front[k]).sym == Some(heads[k]) by {
            assert(front[k] == kids[k]);
        }
        lemma_labelled(front, heads);
        assert(!heads.contains(syms[n])) by {
            if heads.contains(syms[n]) {
                let j = choose|j: int| 0 <= j < heads.len() && heads[j] == syms[n];
                assert(syms[j] == syms[n]);
            }
        }
        assert(symbols(kids) =~= syms);
        assert forall|k: int|
            0 <= k < kids.len() implies
            #[trigger] select(kids, syms[k]) == seq![kids[k]] by {
            if k < n {
                assert(select(front, heads[k]) == seq![front[k]]);
                assert(syms[k] != syms[n]);
                assert(select(kids, syms[k]) =~= seq![kids[k]]);
            } else {
                assert(select(front, syms[n]) == Seq::<Tree>::empty());
                assert(select(kids, syms[k]) =~= seq![kids[k]]);
            }
        }
        assert forall|c: char|
            !syms.contains(c) implies
            #[trigger] select(kids, c) == Seq::<Tree>::empty() by {
            assert(!heads.contains(c)) by {
                if heads.contains(c) {
                    let j = choose|j: int| 0 <= j < heads.len() && heads[j] == c;
                    assert(syms[j] == c);
                }
            }
            assert(syms[n] != c);
            assert(select(front, c) == Seq::<Tree>::empty());
        }
    } else {
        assert(symbols(kids) =~= syms);
    }
}

/// The children of the merge of two or more trees carry, one each and in
/// order, the symbols of the pooled children.
pub proof fn lemma_merge_all_children(group: Seq<Tree>)
    requires
        group.len() >= 2,
    ensures
        merge_all(group).sym == group[0].sym,
        merge_all(group).children.len() == symbols(pooled(group)).len(),
        forall|k: int| 0 <= k < symbols(pooled(group)).len() ==> {
            &&& (#[trigger] merge_all(group).children[k]) == merge_all(select(pooled(group), symbols(pooled(group))[k]))
            &&& merge_all(group).children[k].sym == Some(symbols(pooled(group))[k])
        },
{
    let pool = pooled(group);
    let syms = symbols(pool);
    assert forall|k: int|
        0 <= k < syms.len() implies
        (#[trigger] merge_all(group).children[k]).sym == Some(syms[k]) by {
        let sub = select(pool, syms[k]);
        assert(syms.contains(syms[k]));
        lemma_select_carries(pool, syms[k]);
        if sub.len() >= 2 {
            assert(merge_all(sub).sym == sub[0].sym);
        }
    }
}

/// The merge of a group is no taller than the tallest tree of the group.
pub proof fn lemma_merge_all_height(group: Seq<Tree>)
    requires
        group.len() >= 1,
    ensures
        merge_all(group).height() < span(group),
    decreases span(group),
{
    if group.len() == 1 {
        lemma_span_covers(group, 0);
    } else {
        let pool = pooled(group);
        let syms = symbols(pool);
        let kids = merge_all(group).children;
        let bound = (span(group) - 1) as nat;
        lemma_span_covers(group, 0);
        assert forall|k: int| 0 <= k < kids.len() implies (#[trigger] kids[k]).height() < bound by {
            let sub = select(pool, syms[k]);
            assert(syms.contains(syms[k]));
            lemma_select_carries(pool, syms[k]);
            lemma_select_span(group, syms[k]);
            lemma_merge_all_height(sub);
        }
        lemma_span_bounded(kids, bound);
    }
}

/// A merged subgroup may stand in a group for its trees: merging the group
/// gives the same tree either way.
pub proof fn lemma_merge_all_flatten(a: Seq<Tree>, b: Seq<Tree>, c: Seq<Tree>)
    requires
        b.len() >= 1,
    ensures
        merge_all(a + seq![merge_all(b)] + c) == merge_all(a + b + c),
    decreases span(a + b + c),
{
    let t = merge_all(b);
    let merged_group = a + seq![t] + c;
    let flat_group = a + b + c;
    if b.len() == 1 {
        assert(merged_group =~= flat_group);
    } else if a.len() + c.len() == 0 {
        assert(merged_group =~= seq![t]);
        assert(flat_group =~= b);
    } else {
        let pa = pooled(a);
        let pb = pooled(b);
        let pc = pooled(c);
        let merged_pool = pooled(merged_group);
        let flat_pool = pooled(flat_group);
        let sb = symbols(pb);
        assert(merged_pool == pa + t.children + pc) by {
            lemma_pooled_add(a + seq![t], c);
            lemma_pooled_add(a, seq![t]);
            lemma_pooled_one(t);
        }
        assert(flat_pool == pa + pb + pc) by {
            lemma_pooled_add(a + b, c);
            lemma_pooled_add(a, b);
        }
        lemma_merge_all_children(b);
        lemma_symbols_distinct(pb);
        lemma_labelled(t.children, sb);
        assert(symbols(merged_pool) == symbols(flat_pool)) by {
            lemma_symbols_add(pa + t.children, pc);
            lemma_symbols_add(pa, t.children);
            lemma_symbols_add(pa + pb, pc);
            lemma_symbols_add(pa, pb);
        }
        let syms = symbols(flat_pool);
        lemma_merge_all_children(merged_group);
        lemma_merge_all_children(flat_group);
        assert forall|k: int|
            0 <= k < syms.len() implies
            (#[trigger] merge_all(merged_group).children[k]) == merge_all(flat_group).children[k] by {
            let ch = syms[k];
            let xa = select(pa, ch);
            let xb = select(pb, ch);
            let xc = select(pc, ch);
            assert(select(merged_pool, ch) == xa + select(t.children, ch) + xc) by {
                Seq::filter_distributes_over_add(pa + t.children, pc, carries(ch));
                Seq::filter_distributes_over_add(pa, t.children, carries(ch));
            }
            assert(select(flat_pool, ch) == xa + xb + xc) by {
                Seq::filter_distributes_over_add(pa + pb, pc, carries(ch));
                Seq::filter_distributes_over_add(pa, pb, carries(ch));
            }
            lemma_select_carries(pb, ch);
            if sb.contains(ch) {
                let j = choose|j: int| 0 <= j < sb.len() && sb[j] == ch;
                assert(select(t.children, sb[j]) == seq![t.children[j]]);
                assert(t.children[j] == merge_all(xb));
                lemma_select_span(flat_group, ch);
                lemma_merge_all_flatten(xa, xb, xc);
            } else {
                assert(select(merged_pool, ch) =~= select(flat_pool, ch));
            }
        }
        assert(merge_all(merged_group).children =~= merge_all(flat_group).children);
        assert(merged_group[0].sym == flat_group[0].sym);
    }
}

/// The merge of well-formed trees that carry one symbol is well-formed.
pub proof fn lemma_merge_all_wf(group: Seq<Tree>)
    requires
        group.len() >= 1,
        alike(group),
        forall|i: int| 0 <= i < group.len() ==> (#[trigger] group[i]).wf(),
    ensures
        merge_all(group).wf(),
    decreases span(group),
{
    if group.len() >= 2 {
        let pool = pooled(group);
        let syms = symbols(pool);
        let kids = merge_all(group).children;
        lemma_merge_all_children(group);
        lemma_symbols_distinct(pool);
        assert forall|i: int| 0 <= i < pool.len() implies (#[trigger] pool[i]).wf() by {
            let at = lemma_pooled_origin(group, i);
            assert(group[at.0].wf());
        }
        if group[0].sym is None {
            if pool.len() > 0 {
                let at = lemma_pooled_origin(group, 0);
                assert(group[at.0].wf());
            }
            assert(syms.len() == 0);
        }
        assert forall|k: int| 0 <= k < kids.len() implies (#[trigger] kids[k]).wf() by {
            let sub = select(pool, syms[k]);
            assert(syms.contains(syms[k]));
            lemma_select_carries(pool, syms[k]);
            lemma_select_span(group, syms[k]);
            assert forall|i: int| 0 <= i < sub.len() implies (#[trigger] sub[i]).wf() by {
                assert(sub.contains(sub[i]));
                pool.lemma_filter_contains_rev(carries(syms[k]), sub[i]);
                let j = choose|j: int| 0 <= j < pool.len() && pool[j] == sub[i];
                assert(pool[j].wf());
            }
            lemma_merge_all_wf(sub);
        }
    }
}

/// The merge of tidy trees is tidy.
pub proof fn lemma_merge_all_tidy(group: Seq<Tree>)
    requires
        group.len() >= 1,
        forall|i: int| 0 <= i < group.len() ==> (#[trigger] group[i]).tidy(),
    ensures
        merge_all(group).tidy(),
    decreases span(group),
{
    if group.len() >= 2 {
        let pool = pooled(group);
        let syms = symbols(pool);
        let kids = merge_all(group).children;
        lemma_merge_all_children(group);
        assert forall|i: int| 0 <= i < pool.len() implies (#[trigger] pool[i]).tidy() by {
            let at = lemma_pooled_origin(group, i);
            assert(group[at.0].tidy());
        }
        assert forall|k: int| 0 <= k < kids.len() implies (#[trigger] kids[k]).tidy() by {
            let sub = select(pool, syms[k]);
            assert(syms.contains(syms[k]));
            lemma_select_carries(pool, syms[k]);
            lemma_select_span(group, syms[k]);
            assert forall|i: int| 0 <= i < sub.len() implies (#[trigger] sub[i]).tidy() by {
                assert(sub.contains(sub[i]));
                pool.lemma_filter_contains_rev(carries(syms[k]), sub[i]);
                let j = choose|j: int| 0 <= j < pool.len() && pool[j] == sub[i];
                assert(pool[j].tidy());
            }
            lemma_merge_all_tidy(sub);
        }
        assert(symbolic(kids));
    }
}

/// The paths of a merge are the paths of the merged trees.
pub proof fn lemma_merge_all_paths(group: Seq<Tree>, path: Seq<char>)
    requires
        group.len() >= 1,
        alike(group),
    ensures
        merge_all(group).has_path(path) <==> exists|j: int| 0 <= j < group.len() && (#[trigger] group[j]).has_path(path),
    decreases path.len(),
{
    if group.len() == 1 {
        if merge_all(group).has_path(path) {
            assert(group[0].has_path(path));
        }
    } else if path.len() == 0 {
    } else if path.len() == 1 {
        lemma_merge_all_children(group);
        if merge_all(group).has_path(path) {
            assert(group[0].has_path(path));
        }
    } else {
        let pool = pooled(group);
        let syms = symbols(pool);
        let merged = merge_all(group);
        let rest = path.drop_first();
        lemma_merge_all_children(group);
        if merged.has_path(path) {
            let k = choose|k: int| 0 <= k < merged.children.len() && (#[trigger] merged.children[k]).has_path(rest);
            let sub = select(pool, syms[k]);
            assert(syms.contains(syms[k]));
            lemma_select_carries(pool, syms[k]);
            lemma_merge_all_paths(sub, rest);
            let i = choose|i: int| 0 <= i < sub.len() && (#[trigger] sub[i]).has_path(rest);
            assert(sub.contains(sub[i]));
            pool.lemma_filter_contains_rev(carries(syms[k]), sub[i]);
            let q = choose|q: int| 0 <= q < pool.len() && pool[q] == sub[i];
            let at = lemma_pooled_origin(group, q);
            assert(group[at.0].children[at.1].has_path(rest));
            assert(group[at.0].has_path(path));
        }
        if exists|j: int| 0 <= j < group.len() && (#[trigger] group[j]).has_path(path) {
            let j = choose|j: int| 0 <= j < group.len() && (#[trigger] group[j]).has_path(path);
            let l = choose|l: int| 0 <= l < group[j].children.len() && (#[trigger] group[j].children[l]).has_path(rest);
            let x = group[j].children[l];
            let c = rest[0];
            lemma_pooled_contains(group, j, l);
            let q = choose|q: int| 0 <= q < pool.len() && pool[q] == x;
            lemma_symbols_contains(pool, c);
            let k = choose|k: int| 0 <= k < syms.len() && syms[k] == c;
            let sub = select(pool, c);
            lemma_select_carries(pool, c);
            assert(carries(c)(pool[q]));
            pool.lemma_filter_contains(carries(c), q);
            let i = choose|i: int| 0 <= i < sub.len() && sub[i] == x;
            assert(sub[i].has_path(rest));
            lemma_merge_all_paths(sub, rest);
            assert(merged.children[k].has_path(rest));
        }
    }
}

} // verus!
