use trie_dot::dot::{RankDir, SentinelPolicy};
use trie_dot::node::Node;
use trie_dot::trie::Trie;

fn word(s: &str) -> Node {
    Node::from_string(&s.to_string())
}

fn trie_of(words: &[&str]) -> Trie {
    let mut t = Trie::new();
    for w in words {
        t.insert(word(&w.to_uppercase()));
    }
    t
}

#[test]
fn empty_trie_is_header_and_footer() {
    let t = Trie::new();
    assert_eq!(
        t.to_dot(RankDir::LR, SentinelPolicy::Stop),
        "digraph {\nrankdir=LR;\n}\n"
    );
    assert_eq!(
        t.to_dot(RankDir::UB, SentinelPolicy::Skip),
        "digraph {\nrankdir=UB;\n}\n"
    );
}

#[test]
fn win_and_won_end_to_end() {
    let t = trie_of(&["win", "won"]);
    let text = t.to_dot(RankDir::LR, SentinelPolicy::Stop);
    let expected = "digraph {\n\
rankdir=LR;\n\
node_87 [label=\"W\",shape=plain];\n\
node_87 -> node_87_73;\n\
node_87_73 [label=\"I\",shape=plain];\n\
node_87_73 -> node_87_73_78;\n\
node_87_73_78 [label=\"N\",shape=plain];\n\
node_87 -> node_87_79;\n\
node_87_79 [label=\"O\",shape=plain];\n\
node_87_79 -> node_87_79_78;\n\
node_87_79_78 [label=\"N\",shape=plain];\n\
}\n";
    assert_eq!(text, expected);

    let lines: Vec<&str> = text.lines().collect();
    let declared: Vec<&&str> = lines.iter().filter(|l| l.contains("[label=")).collect();
    let edges: Vec<&&str> = lines.iter().filter(|l| l.contains(" -> ")).collect();
    assert_eq!(declared.len(), 5);
    assert_eq!(edges.len(), 4);
    let n_decls: Vec<&&&str> = declared.iter().filter(|l| l.contains("label=\"N\"")).collect();
    assert_eq!(n_decls.len(), 2);
    assert_ne!(n_decls[0], n_decls[1]);
    for l in &lines {
        assert!(!l.ends_with("_;"));
        assert!(!l.contains("_ ["));
    }
}

#[test]
fn both_policies_agree_on_tries_of_words() {
    let t = trie_of(&["win", "won", "ale", "a", "wines"]);
    assert_eq!(
        t.to_dot(RankDir::LR, SentinelPolicy::Stop),
        t.to_dot(RankDir::LR, SentinelPolicy::Skip)
    );
}

#[test]
fn roots_are_written_in_stored_order() {
    let t = trie_of(&["b", "a"]);
    assert_eq!(
        t.to_dot(RankDir::UB, SentinelPolicy::Stop),
        "digraph {\nrankdir=UB;\nnode_66 [label=\"B\",shape=plain];\nnode_65 [label=\"A\",shape=plain];\n}\n"
    );
}

#[test]
fn sentinel_root_has_no_lines() {
    let t = trie_of(&["", "a"]);
    assert_eq!(
        t.to_dot(RankDir::LR, SentinelPolicy::Stop),
        "digraph {\nrankdir=LR;\nnode_65 [label=\"A\",shape=plain];\n}\n"
    );
}

#[test]
fn sentinel_node_has_no_lines() {
    let s = Node::new_empty(None);
    assert_eq!(s.to_dot(&[], SentinelPolicy::Stop), "");
    assert_eq!(s.to_dot(&['A'], SentinelPolicy::Skip), "");
}

#[test]
fn node_lines_carry_the_prefix() {
    let n = word("IN");
    assert_eq!(
        n.to_dot(&['W'], SentinelPolicy::Stop),
        "node_87_73 [label=\"I\",shape=plain];\n\
node_87_73 -> node_87_73_78;\n\
node_87_73_78 [label=\"N\",shape=plain];\n"
    );
}

#[test]
fn stop_ends_the_walk_at_a_sentinel() {
    let n = Node {
        sym: Some('A'),
        children: vec![word("B"), Node::new_empty(None), word("C")],
    };
    assert_eq!(
        n.to_dot(&[], SentinelPolicy::Stop),
        "node_65 [label=\"A\",shape=plain];\n\
node_65 -> node_65_66;\n\
node_65_66 [label=\"B\",shape=plain];\n"
    );
}

#[test]
fn skip_passes_over_a_sentinel() {
    let n = Node {
        sym: Some('A'),
        children: vec![word("B"), Node::new_empty(None), word("C")],
    };
    assert_eq!(
        n.to_dot(&[], SentinelPolicy::Skip),
        "node_65 [label=\"A\",shape=plain];\n\
node_65 -> node_65_66;\n\
node_65_66 [label=\"B\",shape=plain];\n\
node_65 -> node_65_67;\n\
node_65_67 [label=\"C\",shape=plain];\n"
    );
}

#[test]
fn label_is_the_character_itself() {
    let n = Node::new_empty(Some('水'));
    assert_eq!(
        n.to_dot(&[], SentinelPolicy::Stop),
        "node_27700 [label=\"水\",shape=plain];\n"
    );
}

#[test]
fn every_declared_identifier_is_declared_once() {
    let t = trie_of(&["win", "won", "wine", "now", "no", "on", "own"]);
    let text = t.to_dot(RankDir::LR, SentinelPolicy::Skip);
    let mut ids: Vec<&str> = text
        .lines()
        .filter(|l| l.contains("[label="))
        .map(|l| l.split(' ').next().unwrap())
        .collect();
    let all = ids.len();
    ids.sort();
    ids.dedup();
    assert_eq!(ids.len(), all);
}

#[test]
fn every_edge_joins_declared_nodes() {
    let t = trie_of(&["win", "won", "wine", "now", "no", "on", "own"]);
    for policy in [SentinelPolicy::Stop, SentinelPolicy::Skip] {
        let text = t.to_dot(RankDir::LR, policy);
        let ids: Vec<&str> = text
            .lines()
            .filter(|l| l.contains("[label="))
            .map(|l| l.split(' ').next().unwrap())
            .collect();
        let mut edges = 0;
        for l in text.lines().filter(|l| l.contains(" -> ")) {
            let l = l.strip_suffix(';').unwrap();
            let mut ends = l.split(" -> ");
            let from = ends.next().unwrap();
            let to = ends.next().unwrap();
            assert!(ids.contains(&from));
            assert!(ids.contains(&to));
            edges += 1;
        }
        assert_eq!(edges + t.roots().len(), ids.len());
    }
}
