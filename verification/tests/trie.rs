use trie_dot::node::Node;
use trie_dot::trie::Trie;

fn word(s: &str) -> Node {
    Node::from_string(&s.to_string())
}

fn trie_of(words: &[&str]) -> Trie {
    let mut t = Trie::new();
    for w in words {
        t.insert(word(w));
    }
    t
}

fn shape(n: &Node) -> String {
    let mut out = String::new();
    match n.sym {
        Some(c) => out.push(c),
        None => out.push('.'),
    }
    if !n.children.is_empty() {
        out.push('(');
        for (i, c) in n.children.iter().enumerate() {
            if i > 0 {
                out.push(',');
            }
            out.push_str(&shape(c));
        }
        out.push(')');
    }
    out
}

fn shapes(t: &Trie) -> Vec<String> {
    t.roots().iter().map(shape).collect()
}

/// The symbol paths of a node, each as a string, in walking order.
fn paths_of(n: &Node, prefix: &str, out: &mut Vec<String>) {
    if let Some(c) = n.sym {
        let here = format!("{}{}", prefix, c);
        out.push(here.clone());
        for k in &n.children {
            paths_of(k, &here, out);
        }
    }
}

fn sorted_paths(t: &Trie) -> Vec<String> {
    let mut out = Vec::new();
    for r in t.roots() {
        paths_of(r, "", &mut out);
    }
    out.sort();
    out
}

#[test]
fn new_trie_has_no_roots() {
    let t = Trie::new();
    assert!(t.roots().is_empty());
}

#[test]
fn first_insert_makes_a_root() {
    let t = trie_of(&["WIN"]);
    assert_eq!(shapes(&t), vec!["W(I(N(.)))"]);
}

#[test]
fn win_then_won_share_one_root() {
    let t = trie_of(&["WIN", "WON"]);
    assert_eq!(t.roots().len(), 1);
    let w = &t.roots()[0];
    assert_eq!(w.sym, Some('W'));
    assert_eq!(w.children.len(), 2);
    assert_eq!(w.children[0].sym, Some('I'));
    assert_eq!(w.children[1].sym, Some('O'));
    for side in &w.children {
        assert_eq!(side.children.len(), 1);
        let n = &side.children[0];
        assert_eq!(n.sym, Some('N'));
        assert_eq!(n.children.len(), 1);
        assert_eq!(n.children[0].sym, None);
        assert!(n.children[0].children.is_empty());
    }
    let left = w.children[0].children[0].id(&['W', 'I']);
    let right = w.children[1].children[0].id(&['W', 'O']);
    assert_eq!(left, "node_87_73_78");
    assert_eq!(right, "node_87_79_78");
    assert_ne!(left, right);
}

#[test]
fn words_with_other_first_letters_make_new_roots() {
    let t = trie_of(&["AB", "CD", "EF"]);
    assert_eq!(shapes(&t), vec!["A(B(.))", "C(D(.))", "E(F(.))"]);
}

#[test]
fn merged_root_moves_to_the_end() {
    let t = trie_of(&["AB", "CD", "AX"]);
    assert_eq!(shapes(&t), vec!["C(D(.))", "A(B(.),X(.))"]);
}

#[test]
fn roots_stay_distinct() {
    let t = trie_of(&["WIN", "ALE", "WON", "", "ARM", "WIN", "", "BEE", "A"]);
    let roots = t.roots();
    for i in 0..roots.len() {
        for j in (i + 1)..roots.len() {
            assert_ne!(roots[i].sym, roots[j].sym);
        }
    }
    assert_eq!(roots.len(), 4);
}

#[test]
fn empty_word_makes_a_sentinel_root_once() {
    let t = trie_of(&["", "A", ""]);
    assert_eq!(shapes(&t), vec!["A(.)", "."]);
}

#[test]
fn second_insert_of_a_word_adds_no_path() {
    let once = trie_of(&["WIN", "WON", "ALE"]);
    let twice = trie_of(&["WIN", "WON", "ALE", "WIN"]);
    assert_eq!(
        sorted_paths(&once),
        vec!["A", "AL", "ALE", "W", "WI", "WIN", "WO", "WON"]
    );
    assert_eq!(sorted_paths(&once), sorted_paths(&twice));
    let again = trie_of(&["WIN", "WIN"]);
    assert_eq!(shapes(&again), vec!["W(I(N))"]);
}

#[test]
fn insert_adds_the_paths_of_the_word() {
    let before = trie_of(&["WIN"]);
    let after = trie_of(&["WIN", "WIT"]);
    assert_eq!(sorted_paths(&before), vec!["W", "WI", "WIN"]);
    assert_eq!(sorted_paths(&after), vec!["W", "WI", "WIN", "WIT"]);
}

#[test]
fn insert_takes_a_node_that_is_no_chain() {
    let mut t = trie_of(&["AB"]);
    t.insert(Node {
        sym: Some('A'),
        children: vec![word("C"), word("B"), word("CD")],
    });
    assert_eq!(shapes(&t), vec!["A(B,C(D(.)))"]);
}
