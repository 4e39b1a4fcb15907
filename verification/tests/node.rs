use trie_dot::merge::_merge_node;
use trie_dot::node::Node;

fn word(s: &str) -> Node {
    Node::from_string(&s.to_string())
}

/// A node as text: its symbol, then its children in brackets; `.` is a sentinel.
fn shape(n: &Node) -> String {
    let mut out = String::new();
    match n.sym {
        Some(c) => out.push(c),
        None => out.push('.'),
    }
    if !n.children.is_empty() {
        out.push('(');
        for (i, c) in n.children.iter().enumerate() {
            if i > 0 {
                out.push(',');
            }
            out.push_str(&shape(c));
        }
        out.push(')');
    }
    out
}

#[test]
fn it_works() {
    assert_eq!(2 + 2, 4);
}

#[test]
fn can_create_single_node() {
    let n = Node::from_string(&"win".to_string());
    assert_eq!(n.sym, Some('w'));
    assert_eq!(n.children.len(), 1);
    assert_eq!(n.children[0].sym, Some('i'));
    assert_eq!(n.children[0].children[0].sym, Some('n'));
}

#[test]
fn can_merge_nodes() {
    let n = Node::from_string(&"win".to_string());
    let m = Node::from_string(&"won".to_string());
    let nm = _merge_node(n, m);
    assert_eq!(nm.sym, Some('w'));
    assert_eq!(nm.children.len(), 2);
    if nm.children[0].sym == Some('i') {
        assert_eq!(nm.children[1].sym, Some('o'));
    } else {
        assert_eq!(nm.children[0].sym, Some('o'));
        assert_eq!(nm.children[1].sym, Some('i'));
    }

    assert_eq!(nm.children[1].children[0].sym, Some('n'));
    assert_eq!(nm.children[0].children[0].sym, Some('n'));

    let left = [nm.sym.unwrap(), nm.children[0].sym.unwrap()];
    let right = [nm.sym.unwrap(), nm.children[1].sym.unwrap()];
    assert_ne!(
        nm.children[0].children[0].id(&left),
        nm.children[1].children[0].id(&right)
    );
}

#[test]
fn new_empty_has_the_symbol_and_no_children() {
    let n = Node::new_empty(Some('x'));
    assert_eq!(n.sym, Some('x'));
    assert!(n.children.is_empty());
    let s = Node::new_empty(None);
    assert_eq!(s.sym, None);
    assert!(s.children.is_empty());
}

#[test]
fn empty_string_is_the_sentinel() {
    let n = word("");
    assert_eq!(n.sym, None);
    assert!(n.children.is_empty());
}

#[test]
fn chain_of_abc() {
    let n = word("abc");
    assert_eq!(n.sym, Some('a'));
    assert_eq!(n.children.len(), 1);
    let b = &n.children[0];
    assert_eq!(b.sym, Some('b'));
    assert_eq!(b.children.len(), 1);
    let c = &b.children[0];
    assert_eq!(c.sym, Some('c'));
    assert_eq!(c.children.len(), 1);
    let end = &c.children[0];
    assert_eq!(end.sym, None);
    assert!(end.children.is_empty());
    assert_eq!(shape(&n), "a(b(c(.)))");
}

#[test]
fn chain_keeps_characters_beyond_ascii() {
    let n = word("é水");
    assert_eq!(shape(&n), "é(水(.))");
}

#[test]
fn from_iter_reads_what_is_left() {
    let text = "abc".to_string();
    let mut chars = text.chars();
    assert_eq!(chars.next(), Some('a'));
    let n = Node::_from_iter(&mut chars);
    assert_eq!(shape(&n), "b(c(.))");
    assert_eq!(chars.next(), None);
}

#[test]
fn merge_shares_the_prefix() {
    let nm = _merge_node(word("WIN"), word("WON"));
    assert_eq!(shape(&nm), "W(I(N(.)),O(N(.)))");
}

#[test]
fn merge_orders_children_by_first_occurrence() {
    let nm = _merge_node(word("ab"), word("ac"));
    assert_eq!(shape(&nm), "a(b(.),c(.))");
    let mn = _merge_node(word("ac"), word("ab"));
    assert_eq!(shape(&mn), "a(c(.),b(.))");
}

#[test]
fn merge_drops_the_sentinels_of_both() {
    let nm = _merge_node(word("a"), word("ab"));
    assert_eq!(shape(&nm), "a(b(.))");
    let same = _merge_node(word("a"), word("a"));
    assert_eq!(shape(&same), "a");
}

#[test]
fn merge_of_a_word_with_itself_has_no_second_branch() {
    let nm = _merge_node(word("win"), word("win"));
    assert_eq!(shape(&nm), "w(i(n))");
}

#[test]
fn merge_of_two_sentinels_is_a_sentinel() {
    let nm = _merge_node(word(""), word(""));
    assert_eq!(nm.sym, None);
    assert!(nm.children.is_empty());
}

#[test]
fn merge_folds_a_group_of_three() {
    let a = Node {
        sym: Some('r'),
        children: vec![word("xa"), word("y"), word("xb")],
    };
    let b = Node {
        sym: Some('r'),
        children: vec![word("xc"), Node::new_empty(None), word("z")],
    };
    let r = _merge_node(a, b);
    assert_eq!(shape(&r), "r(x(a(.),b(.),c(.)),y(.),z(.))");
}

#[test]
fn merge_is_associative_on_three_words() {
    let left = _merge_node(_merge_node(word("win"), word("won")), word("wit"));
    let right = _merge_node(word("win"), _merge_node(word("won"), word("wit")));
    assert_eq!(shape(&left), "w(i(n(.),t(.)),o(n(.)))");
    assert_eq!(shape(&left), shape(&right));
}

/// The symbol paths of a node, each as a string, sorted.
fn paths(n: &Node) -> Vec<String> {
    fn walk(n: &Node, prefix: &str, out: &mut Vec<String>) {
        if let Some(c) = n.sym {
            let here = format!("{}{}", prefix, c);
            out.push(here.clone());
            for k in &n.children {
                walk(k, &here, out);
            }
        }
    }
    let mut out = Vec::new();
    walk(n, "", &mut out);
    out.sort();
    out
}

#[test]
fn merge_in_either_order_has_the_same_paths() {
    let ab = _merge_node(word("win"), word("won"));
    let ba = _merge_node(word("won"), word("win"));
    assert_eq!(shape(&ab), "w(i(n(.)),o(n(.)))");
    assert_eq!(shape(&ba), "w(o(n(.)),i(n(.)))");
    assert_eq!(paths(&ab), vec!["w", "wi", "win", "wo", "won"]);
    assert_eq!(paths(&ab), paths(&ba));
}

#[test]
fn merge_has_the_paths_of_both() {
    let a = word("wine");
    let b = word("wit");
    let mut both = paths(&a);
    both.extend(paths(&b));
    both.sort();
    both.dedup();
    let m = _merge_node(a, b);
    assert_eq!(paths(&m), both);
    assert_eq!(paths(&m), vec!["w", "wi", "win", "wine", "wit"]);
}

#[test]
fn merge_of_words_keeps_siblings_distinct() {
    fn check(n: &Node) {
        for i in 0..n.children.len() {
            for j in (i + 1)..n.children.len() {
                assert_ne!(n.children[i].sym, n.children[j].sym);
            }
            check(&n.children[i]);
        }
        if n.sym.is_none() {
            assert!(n.children.is_empty());
        }
    }
    let mut m = word("wine");
    for w in ["win", "wit", "won", "wine", "w", "wonder"] {
        m = _merge_node(m, word(w));
    }
    check(&m);
    assert_eq!(shape(&m), "w(i(n(e),t(.)),o(n(d(e(r(.))))))");
}

#[test]
fn id_is_the_path_in_code_points() {
    let n = word("W");
    assert_eq!(n.id(&[]), "node_87");
    assert_eq!(n.id(&['A']), "node_65_87");
    assert_eq!(n.children[0].id(&['W']), "node_87_");
    assert_eq!(Node::new_empty(Some('0')).id(&[]), "node_48");
    assert_eq!(Node::new_empty(Some('\u{0}')).id(&[]), "node_0");
    assert_eq!(Node::new_empty(Some('\t')).id(&[]), "node_9");
    assert_eq!(Node::new_empty(Some('\n')).id(&[]), "node_10");
    assert_eq!(Node::new_empty(Some('水')).id(&['é']), "node_233_27700");
    assert_eq!(Node::new_empty(Some('\u{10FFFF}')).id(&[]), "node_1114111");
}

#[test]
fn id_is_the_same_on_every_call() {
    let n = word("win");
    assert_eq!(n.id(&[]), n.id(&[]));
    assert_eq!(n.children[0].id(&['w']), n.children[0].id(&['w']));
}

#[test]
fn id_tells_equal_symbols_on_different_paths_apart() {
    let n = Node::new_empty(Some('N'));
    assert_eq!(n.id(&['W', 'I']), "node_87_73_78");
    assert_eq!(n.id(&['W', 'O']), "node_87_79_78");
    assert_ne!(n.id(&['\u{1}', '2']), n.id(&['\u{c}']));
    assert_eq!(n.id(&['\u{1}', '2']), "node_1_50_78");
    assert_eq!(n.id(&['\u{c}']), "node_12_78");
}
